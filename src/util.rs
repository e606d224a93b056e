//! The codec between decimal text and the packed 32-bit word, and the bit
//! length that sizes a word's fraction.
use vstd::prelude::*;
use crate::digits::{
    all_digits, decimal, digits_value, is_digit, lemma_decimal_digits, push_decimal,
    read_digits_capped, read_digits_mod,
};
use vstd::arithmetic::div_mod::*;

verus! {

/// `2^n`.
pub open spec fn two_pow(n: nat) -> nat
    decreases n,
{
    if n == 0 {
        1
    } else {
        2 * two_pow((n - 1) as nat)
    }
}

/// Number of bits needed to write `n` in binary; zero needs none.
pub open spec fn spec_bit_length(n: nat) -> nat
    decreases n,
{
    if n == 0 {
        0
    } else {
        1 + spec_bit_length(n / 2)
    }
}

pub proof fn lemma_two_pow_positive(n: nat)
    ensures
        two_pow(n) >= 1,
    decreases n,
{
    if n > 0 {
        lemma_two_pow_positive((n - 1) as nat);
    }
}

pub proof fn lemma_two_pow_monotone(a: nat, b: nat)
    requires
        a <= b,
    ensures
        two_pow(a) <= two_pow(b),
    decreases b,
{
    if a < b {
        lemma_two_pow_monotone(a, (b - 1) as nat);
        lemma_two_pow_positive((b - 1) as nat);
    }
}

/// `n` fits in exactly `spec_bit_length(n)` bits.
pub proof fn lemma_bit_length_bounds(n: nat)
    ensures
        n < two_pow(spec_bit_length(n)),
        n > 0 ==> two_pow((spec_bit_length(n) - 1) as nat) <= n,
    decreases n,
{
    if n > 0 {
        lemma_bit_length_bounds(n / 2);
    }
}

/// Whatever fits below `2^k` needs at most `k` bits.
pub proof fn lemma_bit_length_at_most(n: nat, k: nat)
    requires
        n < two_pow(k),
    ensures
        spec_bit_length(n) <= k,
{
    lemma_bit_length_bounds(n);
    if n > 0 && spec_bit_length(n) > k {
        lemma_two_pow_monotone(k, (spec_bit_length(n) - 1) as nat);
    }
}

/// Position of the highest set bit plus one (`bit_length(0) == 0`).
pub fn bit_length(n: u32) -> (r: u32)
    ensures
        r as nat == spec_bit_length(n as nat),
        r <= 32,
{
    proof {
        reveal_with_fuel(two_pow, 33);
        assert(two_pow(32) == 0x1_0000_0000);
        lemma_bit_length_at_most(n as nat, 32);
    }
    let mut m: u32 = n;
    let mut length: u32 = 0;
    while m > 0
        invariant
            length + spec_bit_length(m as nat) == spec_bit_length(n as nat),
            spec_bit_length(n as nat) <= 32,
        decreases m,
    {
        m = m / 2;
        length = length + 1;
    }
    length
}

/// The larger of two numbers.
pub fn f_max(numb_a: u32, numb_b: u32) -> (r: u32)
    ensures
        r == if numb_a > numb_b { numb_a } else { numb_b },
{
    if numb_a > numb_b {
        numb_a
    } else {
        numb_b
    }
}

/// One more than the larger of two numbers: the width that holds a sum of both.
pub fn w_max(numb_a: u32, numb_b: u32) -> (r: u32)
    requires
        numb_a < u32::MAX,
        numb_b < u32::MAX,
    ensures
        r == (if numb_a > numb_b { numb_a } else { numb_b }) + 1,
{
    if numb_a > numb_b {
        numb_a + 1
    } else {
        numb_b + 1
    }
}

/// Exact `2^n` for exponents that fit a `u64`.
pub fn two_pow_u64(n: u32) -> (r: u64)
    requires
        n < 64,
    ensures
        r as nat == two_pow(n as nat),
{
    proof {
        reveal_with_fuel(two_pow, 64);
        assert(two_pow(63) == 0x8000_0000_0000_0000);
        lemma_two_pow_monotone(0, 63);
    }
    let mut r: u64 = 1;
    let mut i: u32 = 0;
    while i < n
        invariant
            i <= n < 64,
            r as nat == two_pow(i as nat),
            two_pow(i as nat) <= two_pow(63),
            two_pow(63) == 0x8000_0000_0000_0000,
        decreases n - i,
    {
        proof {
            lemma_two_pow_monotone((i + 1) as nat, 63);
        }
        r = r * 2;
        i = i + 1;
    }
    r
}

/// Bits 31 to 27 of a word: the pointer.
pub const POINTER_SHIFT: u32 = 27;

/// Bit 26 of a word: the sign (set for a negative number).
pub const SIGN_SHIFT: u32 = 26;

/// Bits 25 to 0 of a word: the magnitude.
pub const VALUE_MASK: u32 = 0x03FF_FFFF;

/// `2^26`: one more than the largest magnitude; also the bound on the
/// fraction digits that a pointer can make room for.
pub open spec fn magnitude_limit() -> nat {
    67108864
}

/// `2^27`: the weight of the pointer's lowest bit.
pub open spec fn pointer_unit() -> nat {
    134217728
}

/// How many low bits of the magnitude hold the fraction.
pub open spec fn pointer_of(w: u32) -> nat {
    (w as nat) / pointer_unit()
}

/// Bit 26 of the word.
pub open spec fn sign_bit(w: u32) -> bool {
    ((w as nat) / magnitude_limit()) % 2 == 1
}

/// The 26-bit magnitude field.
pub open spec fn magnitude_of(w: u32) -> nat {
    (w as nat) % magnitude_limit()
}

/// The number is negative: the sign bit is set over a magnitude that is not
/// zero (a set sign over zero reads as zero).
pub open spec fn is_negative_word(w: u32) -> bool {
    sign_bit(w) && magnitude_of(w) > 0
}

/// The digits of the integer part: the magnitude above the pointer's bits.
pub open spec fn int_part(w: u32) -> nat {
    magnitude_of(w) / two_pow(pointer_of(w))
}

/// The digits of the fraction: the pointer's low bits of the magnitude.
pub open spec fn frac_part(w: u32) -> nat {
    magnitude_of(w) % two_pow(pointer_of(w))
}

/// The text `[-]<integer>.<fraction>`.
pub open spec fn render(neg: bool, int_val: nat, frac_val: nat) -> Seq<char> {
    (if neg {
        seq!['-']
    } else {
        Seq::<char>::empty()
    }) + decimal(int_val) + seq!['.'] + decimal(frac_val)
}

/// The text that a word decodes to.
pub open spec fn decoded(w: u32) -> Seq<char> {
    render(is_negative_word(w), int_part(w), frac_part(w))
}

/// Splits a word into its sign, integer digits and fraction digits.
pub fn split_word(w: u32) -> (r: (bool, u32, u32))
    ensures
        r.0 == is_negative_word(w),
        r.1 as nat == int_part(w),
        r.2 as nat == frac_part(w),
        r.1 < 67108864,
        r.2 < 67108864,
{
    let pointer: u32 = w >> POINTER_SHIFT;
    let sign: u32 = (w >> SIGN_SHIFT) & 1;
    let mag: u32 = w & VALUE_MASK;
    assert(pointer == w / 134217728) by (bit_vector)
        requires
            pointer == w >> 27u32,
    ;
    assert(sign == (w / 67108864) % 2) by (bit_vector)
        requires
            sign == (w >> 26u32) & 1u32,
    ;
    assert(mag == w % 67108864) by (bit_vector)
        requires
            mag == w & 0x03FF_FFFFu32,
    ;
    let neg: bool = sign == 1 && mag != 0;
    let scale: u64 = two_pow_u64(pointer);
    proof {
        lemma_two_pow_positive(pointer as nat);
        lemma_mod_decreases(mag as nat, scale as nat);
        lemma_div_is_ordered_by_denominator(mag as int, 1, scale as int);
    }
    let int_val: u64 = mag as u64 / scale;
    let frac_val: u64 = mag as u64 % scale;
    (neg, int_val as u32, frac_val as u32)
}

/// Renders a word as `[-]<integer>.<fraction>`: the sign from bit 26 (not
/// shown over a zero magnitude), the integer from the magnitude's bits above
/// the pointer, the fraction from its low pointer bits (all of them when the
/// pointer is 26 or more). Every word decodes.
pub fn decode(af32: u32) -> (r: String)
    ensures
        r@ == decoded(af32),
{
    let (neg, int_val, frac_val) = split_word(af32);
    let mut out = String::new();
    if neg {
        proof {
            reveal_strlit("-");
        }
        out.append("-");
    }
    push_decimal(&mut out, int_val as u64);
    proof {
        reveal_strlit(".");
    }
    out.append(".");
    push_decimal(&mut out, frac_val as u64);
    assert(out@ =~= decoded(af32));
    out
}

/// The decoded parts of a word: its sign, its integer part carrying that sign,
/// and its fraction digits.
pub fn decode_as_tuple(af32: u32) -> (r: (bool, i32, u32))
    ensures
        r.0 == is_negative_word(af32),
        r.1 == (if r.0 {
            -(int_part(af32) as int)
        } else {
            int_part(af32) as int
        }),
        r.2 as nat == frac_part(af32),
{
    let (neg, int_val, frac_val) = split_word(af32);
    let signed: i32 = if neg {
        -(int_val as i32)
    } else {
        int_val as i32
    };
    (neg, signed, frac_val)
}

/// The word for a sign, integer digits and fraction digits: the pointer is the
/// bit length of the fraction, the magnitude is the integer shifted above the
/// fraction and cut to 26 bits, and the sign bit is set for a negative number
/// whose magnitude is not zero.
pub open spec fn pack(neg: bool, int_val: nat, frac_val: nat) -> u32 {
    let p = spec_bit_length(frac_val);
    let v = (int_val * two_pow(p) + frac_val) % magnitude_limit();
    let sign: nat = if neg && v > 0 {
        magnitude_limit()
    } else {
        0
    };
    (p * pointer_unit() + sign + v) as u32
}

/// Only the low 26 bits of the integer digits reach the word.
pub proof fn lemma_pack_low_bits(neg: bool, int_val: nat, frac_val: nat)
    ensures
        pack(neg, int_val, frac_val) == pack(neg, int_val % magnitude_limit(), frac_val),
{
    let p = spec_bit_length(frac_val);
    let q = two_pow(p);
    let md = magnitude_limit() as int;
    lemma_mul_mod_noop_left(int_val as int, q as int, md);
    lemma_add_mod_noop((int_val * q) as int, frac_val as int, md);
    lemma_add_mod_noop(((int_val % magnitude_limit()) * q) as int, frac_val as int, md);
    lemma_mod_twice((int_val * q) as int, md);
    lemma_mod_twice(((int_val % magnitude_limit()) * q) as int, md);
    assert((int_val * q + frac_val) % magnitude_limit() == ((int_val % magnitude_limit()) * q
        + frac_val) % magnitude_limit());
}

/// Builds the word for a sign, the low bits of the integer digits and the
/// fraction digits.
pub fn pack_word(neg: bool, int_low: u64, frac_val: u64) -> (r: u32)
    requires
        int_low < 67108864,
        frac_val < 67108864,
    ensures
        r == pack(neg, int_low as nat, frac_val as nat),
        pointer_of(r) <= 26,
{
    proof {
        reveal_with_fuel(two_pow, 27);
        assert(two_pow(26) == 67108864);
        lemma_bit_length_at_most(frac_val as nat, 26);
        lemma_bit_length_bounds(frac_val as nat);
    }
    let p: u32 = bit_length(frac_val as u32);
    let scale: u64 = two_pow_u64(p);
    proof {
        lemma_two_pow_monotone(p as nat, 26);
        assert(int_low * scale <= 67108864 * 67108864) by (nonlinear_arith)
            requires
                int_low < 67108864,
                scale <= 67108864,
        ;
    }
    let m: u64 = int_low * scale + frac_val;
    let v: u64 = m % 67108864;
    let sign: u64 = if neg && v > 0 {
        67108864
    } else {
        0
    };
    let r: u64 = (p as u64) * 134217728 + sign + v;
    assert(r / 134217728 == p as u64);
    r as u32
}

/// Length of a leading sign, `-` or `+`.
pub open spec fn sign_len(s: Seq<char>) -> int {
    if s.len() > 0 && (s[0] == '-' || s[0] == '+') {
        1
    } else {
        0
    }
}

/// The text starts with a minus sign.
pub open spec fn has_minus(s: Seq<char>) -> bool {
    s.len() > 0 && s[0] == '-'
}

/// The text after its sign.
pub open spec fn body_of(s: Seq<char>) -> Seq<char> {
    s.skip(sign_len(s))
}

pub open spec fn dot_at(t: Seq<char>, j: int) -> bool {
    0 <= j < t.len() && t[j] == '.'
}

/// Where the decimal point stands; the length when there is none.
pub open spec fn dot_index(t: Seq<char>) -> int {
    if exists|j: int| dot_at(t, j) {
        choose|j: int| dot_at(t, j)
    } else {
        t.len() as int
    }
}

/// The digits before the decimal point.
pub open spec fn int_text(t: Seq<char>) -> Seq<char> {
    t.take(dot_index(t))
}

/// The digits after the decimal point; none when there is no point.
pub open spec fn frac_text(t: Seq<char>) -> Seq<char> {
    if dot_index(t) < t.len() {
        t.skip(dot_index(t) + 1)
    } else {
        Seq::<char>::empty()
    }
}

/// The text is `[-|+]<digits>[.<digits>]` with at least one digit, and its
/// fraction digits fit the 26 bits that a pointer can give them.
pub open spec fn well_formed(s: Seq<char>) -> bool {
    let t = body_of(s);
    &&& all_digits(int_text(t))
    &&& all_digits(frac_text(t))
    &&& int_text(t).len() + frac_text(t).len() > 0
    &&& digits_value(frac_text(t)) < magnitude_limit()
}

/// The integer digits of a number's text; absent digits count as zero.
pub open spec fn int_value(s: Seq<char>) -> nat {
    digits_value(int_text(body_of(s)))
}

/// The fraction digits of a number's text; absent digits count as zero.
pub open spec fn frac_value(s: Seq<char>) -> nat {
    digits_value(frac_text(body_of(s)))
}

/// The word that a well-formed text encodes to.
pub open spec fn encoded(s: Seq<char>) -> u32 {
    pack(has_minus(s), int_value(s), frac_value(s))
}

/// Why a number could not be built.
#[derive(Debug, Clone, Copy, PartialEq, Eq)]
pub enum AfError {
    /// The text is not `[-|+]<digits>[.<digits>]`, or its fraction is too wide.
    MalformedNumber,
    /// The divisor is zero.
    DivisionByZero,
}

/// A character that is neither a digit nor the decimal point that the parts
/// are split at lies inside one of the two parts.
pub proof fn lemma_stray_char_rejects(t: Seq<char>, j: int)
    requires
        0 <= j < t.len(),
        !is_digit(t[j]),
        j != dot_index(t),
    ensures
        !(all_digits(int_text(t)) && all_digits(frac_text(t))),
{
    let k = dot_index(t);
    if exists|i: int| dot_at(t, i) {
        assert(dot_at(t, k));
    }
    if j < k {
        assert(int_text(t)[j] == t[j]);
    } else {
        assert(frac_text(t)[j - k - 1] == t[j]);
    }
}

/// Parses `[-|+]<digits>[.<digits>]` and builds its word; a text of any other
/// shape, or one whose fraction digits need more than 26 bits, is refused.
pub fn try_encode(af32_str: &str) -> (r: Result<u32, AfError>)
    ensures
        match r {
            Ok(w) => well_formed(af32_str@) && w == encoded(af32_str@) && pointer_of(w) <= 26,
            Err(e) => !well_formed(af32_str@) && e == AfError::MalformedNumber,
        },
{
    let ghost s = af32_str@;
    let n: usize = af32_str.unicode_len();
    let mut start: usize = 0;
    let mut neg: bool = false;
    if n > 0 {
        let c0 = af32_str.get_char(0);
        if c0 == '-' {
            start = 1;
            neg = true;
        } else if c0 == '+' {
            start = 1;
        }
    }
    let ghost t = s.skip(start as int);
    assert(t == body_of(s));
    assert(neg == has_minus(s));
    let mut dot: usize = n;
    let mut i: usize = start;
    while i < n
        invariant
            n == s.len(),
            s == af32_str@,
            t == s.skip(start as int),
            t == body_of(s),
            neg == has_minus(s),
            start <= i <= n,
            dot == n || (start <= dot < i && s[dot as int] == '.'),
            forall|k: int| start <= k < i && k != dot ==> is_digit(#[trigger] s[k]),
        decreases n - i,
    {
        let c = af32_str.get_char(i);
        if c == '.' {
            if dot < n {
                proof {
                    let d = dot - start;
                    let e = i - start;
                    assert(t.len() == n - start);
                    assert(t[e] == s[i as int]);
                    assert(t[d] == s[dot as int]);
                    assert(dot_at(t, d));
                    if dot_index(t) == d {
                        lemma_stray_char_rejects(t, e);
                    } else {
                        lemma_stray_char_rejects(t, d);
                    }
                }
                return Err(AfError::MalformedNumber);
            }
            dot = i;
        } else if !('0' <= c && c <= '9') {
            proof {
                let e = i - start;
                assert(t.len() == n - start);
                assert(t[e] == s[i as int]);
                if exists|j: int| dot_at(t, j) {
                    let k = dot_index(t);
                    assert(dot_at(t, k));
                }
                lemma_stray_char_rejects(t, e);
            }
            return Err(AfError::MalformedNumber);
        }
        i = i + 1;
    }
    // Where the decimal point stands in the body, and what the two parts are.
    proof {
        if dot < n {
            assert(dot_at(t, dot - start));
            let k = dot_index(t);
            assert(dot_at(t, k));
            if k != dot - start {
                assert(is_digit(s[k + start]));
            }
            assert(int_text(t) =~= s.subrange(start as int, dot as int));
            assert(frac_text(t) =~= s.subrange(dot + 1, n as int));
        } else {
            assert forall|j: int| !dot_at(t, j) by {
                if 0 <= j < t.len() {
                    assert(is_digit(s[j + start]));
                }
            }
            assert(int_text(t) =~= s.subrange(start as int, n as int));
            assert(frac_text(t) =~= Seq::<char>::empty());
        }
    }
    let int_end: usize = dot;
    let frac_start: usize = if dot < n {
        dot + 1
    } else {
        n
    };
    assert(all_digits(s.subrange(start as int, int_end as int)));
    assert(all_digits(s.subrange(frac_start as int, n as int)));
    assert(s.subrange(frac_start as int, n as int) =~= frac_text(t));
    assert(s.subrange(start as int, int_end as int) =~= int_text(t));
    if (int_end - start) + (n - frac_start) == 0 {
        return Err(AfError::MalformedNumber);
    }
    let frac_val: u64 = read_digits_capped(af32_str, frac_start, n, 0x0400_0000);
    if frac_val >= 0x0400_0000 {
        return Err(AfError::MalformedNumber);
    }
    let int_low: u64 = read_digits_mod(af32_str, start, int_end, 0x0400_0000);
    proof {
        lemma_pack_low_bits(neg, int_value(s), frac_value(s));
    }
    Ok(pack_word(neg, int_low, frac_val))
}

/// Builds the word of a well-formed text, whose shape the caller guarantees;
/// `try_encode` reports `MalformedNumber` for any other text.
pub fn encode(af32_str: &str) -> (r: u32)
    requires
        well_formed(af32_str@),
    ensures
        r == encoded(af32_str@),
{
    match try_encode(af32_str) {
        Ok(w) => w,
        Err(_) => {
            assert(false);
            0
        },
    }
}

/// The magnitude that `pack` builds, before it is cut to 26 bits.
pub open spec fn packed_magnitude(int_val: nat, frac_val: nat) -> nat {
    int_val * two_pow(spec_bit_length(frac_val)) + frac_val
}

/// Decoding a packed word gives back its parts; a zero comes back unsigned.
pub proof fn lemma_pack_fields(neg: bool, int_val: nat, frac_val: nat)
    requires
        frac_val < magnitude_limit(),
        packed_magnitude(int_val, frac_val) < magnitude_limit(),
    ensures
        pointer_of(pack(neg, int_val, frac_val)) == spec_bit_length(frac_val),
        pointer_of(pack(neg, int_val, frac_val)) <= 26,
        is_negative_word(pack(neg, int_val, frac_val)) == (neg && packed_magnitude(
            int_val,
            frac_val,
        ) > 0),
        magnitude_of(pack(neg, int_val, frac_val)) == packed_magnitude(int_val, frac_val),
        int_part(pack(neg, int_val, frac_val)) == int_val,
        frac_part(pack(neg, int_val, frac_val)) == frac_val,
{
    let p = spec_bit_length(frac_val);
    let q = two_pow(p);
    let m = packed_magnitude(int_val, frac_val);
    let lim = magnitude_limit();
    reveal_with_fuel(two_pow, 27);
    assert(two_pow(26) == 67108864);
    lemma_bit_length_at_most(frac_val, 26);
    lemma_bit_length_bounds(frac_val);
    lemma_small_mod(m, lim);
    let sg: nat = if neg && m > 0 {
        1
    } else {
        0
    };
    let w = p * pointer_unit() + sg * lim + m;
    assert(w < 0x1_0000_0000) by (nonlinear_arith)
        requires
            p <= 26,
            sg <= 1,
            m < lim,
            lim == 67108864,
            w == p * 134217728 + sg * lim + m,
    ;
    let word = pack(neg, int_val, frac_val);
    assert(word as nat == w);
    lemma_fundamental_div_mod_converse(
        w as int,
        pointer_unit() as int,
        p as int,
        (sg * lim + m) as int,
    );
    assert(w == (2 * p + sg) * lim + m) by (nonlinear_arith)
        requires
            w == p * 134217728 + sg * lim + m,
            lim == 67108864,
    ;
    lemma_fundamental_div_mod_converse(w as int, lim as int, (2 * p + sg) as int, m as int);
    assert(pointer_of(word) == p);
    assert(magnitude_of(word) == m);
    assert((2 * p + sg) % 2 == sg);
    lemma_two_pow_positive(p);
    lemma_fundamental_div_mod_converse(m as int, q as int, int_val as int, frac_val as int);
}

/// The text `render(neg, int_val, frac_val)` is well formed and reads back as
/// its sign and its two digit groups.
pub proof fn lemma_render_parses(neg: bool, int_val: nat, frac_val: nat)
    requires
        frac_val < magnitude_limit(),
    ensures
        well_formed(render(neg, int_val, frac_val)),
        has_minus(render(neg, int_val, frac_val)) == neg,
        int_value(render(neg, int_val, frac_val)) == int_val,
        frac_value(render(neg, int_val, frac_val)) == frac_val,
{
    let s = render(neg, int_val, frac_val);
    let a = decimal(int_val);
    let b = decimal(frac_val);
    lemma_decimal_digits(int_val);
    lemma_decimal_digits(frac_val);
    let body = a + seq!['.'] + b;
    if neg {
        assert(s[0] == '-');
        assert(s.skip(1) =~= body);
    } else {
        assert(s =~= body);
        assert(is_digit(a[0]));
        assert(s[0] == a[0]);
    }
    assert(body_of(s) =~= body);
    let t = body;
    let la = a.len() as int;
    assert(dot_at(t, la));
    let k = dot_index(t);
    assert(dot_at(t, k));
    if k < la {
        assert(t[k] == a[k]);
        assert(is_digit(a[k]));
    } else if k > la {
        assert(t[k] == b[k - la - 1]);
        assert(is_digit(b[k - la - 1]));
    }
    assert(k == la);
    assert(int_text(t) =~= a);
    assert(frac_text(t) =~= b);
}

/// Decoding what a canonical text encodes to gives the text back, except that
/// a negative zero comes back without its sign.
pub proof fn lemma_round_trip(neg: bool, int_val: nat, frac_val: nat)
    requires
        frac_val < magnitude_limit(),
        packed_magnitude(int_val, frac_val) < magnitude_limit(),
    ensures
        well_formed(render(neg, int_val, frac_val)),
        decoded(encoded(render(neg, int_val, frac_val))) == render(
            neg && (int_val > 0 || frac_val > 0),
            int_val,
            frac_val,
        ),
{
    lemma_render_parses(neg, int_val, frac_val);
    lemma_pack_fields(neg, int_val, frac_val);
    lemma_two_pow_positive(spec_bit_length(frac_val));
    assert(packed_magnitude(int_val, frac_val) > 0 <==> (int_val > 0 || frac_val > 0)) by (
    nonlinear_arith)
        requires
            two_pow(spec_bit_length(frac_val)) >= 1,
            packed_magnitude(int_val, frac_val) == int_val * two_pow(spec_bit_length(frac_val))
                + frac_val,
    ;
}

} // verus!
