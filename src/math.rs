//! Arithmetic on packed words: each operand is read as a signed count of its
//! last decimal place, the operation is done on those integers, and the result
//! is packed again.
use vstd::prelude::*;
use crate::digits::{
    decimal_places, lemma_places_at_most, lemma_places_bound, lemma_ten_pow_monotone,
    lemma_ten_pow_positive, places, ten_pow, ten_pow_u128,
};
use vstd::arithmetic::div_mod::{lemma_fundamental_div_mod, lemma_fundamental_div_mod_converse};
use crate::util::{
    bit_length, decoded, frac_part, int_part, is_negative_word, lemma_bit_length_at_most,
    lemma_pack_fields, lemma_pack_low_bits, lemma_two_pow_monotone, lemma_two_pow_positive,
    magnitude_of, pack, pack_word, packed_magnitude, pointer_of, render, magnitude_limit,
    spec_bit_length, split_word, two_pow, two_pow_u64, AfError,
};

verus! {

/// How many decimal places a word's fraction carries.
pub open spec fn scale_of(w: u32) -> nat {
    places(frac_part(w))
}

/// The magnitude of a word's number counted in units of its last decimal
/// place: `12.34` is `1234`.
pub open spec fn scaled(w: u32) -> nat {
    int_part(w) * ten_pow(scale_of(w)) + frac_part(w)
}

/// `scaled`, with the word's sign.
pub open spec fn signed_scaled(w: u32) -> int {
    if is_negative_word(w) {
        -(scaled(w) as int)
    } else {
        scaled(w) as int
    }
}

pub open spec fn abs_int(t: int) -> nat {
    if t < 0 {
        (-t) as nat
    } else {
        t as nat
    }
}

pub open spec fn max_nat(a: nat, b: nat) -> nat {
    if a > b {
        a
    } else {
        b
    }
}

/// The digits `m` over `k` decimal places pack without loss: the fraction
/// digits and the packed magnitude both stay below `2^26`.
pub open spec fn fits_places(m: nat, k: nat) -> bool {
    &&& m % ten_pow(k) < magnitude_limit()
    &&& packed_magnitude(m / ten_pow(k), m % ten_pow(k)) < magnitude_limit()
}

/// Renormalization: drops the last decimal place of `m / 10^k` while the
/// digits do not pack without loss. Trailing zero places go first by
/// themselves; a place that is not zero goes only when the exact number does
/// not fit, which truncates it toward zero.
pub open spec fn normalize(m: nat, k: nat) -> (nat, nat)
    decreases k,
{
    if k > 0 && !fits_places(m, k) {
        normalize(m / 10, (k - 1) as nat)
    } else {
        (m, k)
    }
}

/// The word for the decimal number `t / 10^k`, renormalized.
pub open spec fn from_scaled(t: int, k: nat) -> u32 {
    let f = normalize(abs_int(t), k);
    pack(t < 0, f.0 / ten_pow(f.1), f.0 % ten_pow(f.1))
}

/// The exact number `t / 10^k` has a word: without its trailing zero places,
/// its digits pack without loss.
pub open spec fn exact_fit(t: int, k: nat) -> bool {
    let s = strip_zeros(abs_int(t), k);
    fits_places(s.0, s.1)
}

/// The word `r` holds exactly `t / 10^k`: the renormalized digits equal the
/// number, and `r` decodes to them with the sign of `t`.
pub open spec fn represents(r: u32, t: int, k: nat) -> bool {
    let n = normalize(abs_int(t), k);
    &&& n.0 * ten_pow((k - n.1) as nat) == abs_int(t)
    &&& decoded(r) == render(t < 0, n.0 / ten_pow(n.1), n.0 % ten_pow(n.1))
}

/// A word's signed number counted in units of `10^-k` (`k` at least its places).
pub open spec fn aligned(w: u32, k: nat) -> int {
    signed_scaled(w) * ten_pow((k - scale_of(w)) as nat)
}

/// The finer of two words' decimal places.
pub open spec fn common_places(a: u32, b: u32) -> nat {
    max_nat(scale_of(a), scale_of(b))
}

/// `a + b` counted in units of `10^-common_places(a, b)`.
pub open spec fn exact_sum(a: u32, b: u32) -> int {
    aligned(a, common_places(a, b)) + aligned(b, common_places(a, b))
}

/// `a - b` counted in units of `10^-common_places(a, b)`.
pub open spec fn exact_difference(a: u32, b: u32) -> int {
    aligned(a, common_places(a, b)) - aligned(b, common_places(a, b))
}

/// The word of `a + b`, both aligned to the finer of their decimal places.
pub open spec fn sum_word(a: u32, b: u32) -> u32 {
    from_scaled(exact_sum(a, b), common_places(a, b))
}

/// The word of `a - b`, both aligned to the finer of their decimal places.
pub open spec fn difference_word(a: u32, b: u32) -> u32 {
    from_scaled(exact_difference(a, b), common_places(a, b))
}

/// The word of `a * b`: the places of the product are the sum of theirs.
pub open spec fn product_word(a: u32, b: u32) -> u32 {
    from_scaled(signed_scaled(a) * signed_scaled(b), scale_of(a) + scale_of(b))
}

/// Decimal places of a quotient before its trailing zeros are dropped.
pub const QUOTIENT_PLACES: u32 = 12;

/// Drops trailing zero decimal places of `m / 10^k`.
pub open spec fn strip_zeros(m: nat, k: nat) -> (nat, nat)
    decreases k,
{
    if k > 0 && m % 10 == 0 {
        strip_zeros(m / 10, (k - 1) as nat)
    } else {
        (m, k)
    }
}

/// The word of `a / b` (for `b` not zero): the quotient truncated toward zero
/// after twelve decimal places, without trailing zero places.
pub open spec fn quotient_word(a: u32, b: u32) -> u32 {
    from_scaled(signed_quotient(a, b), quotient_digits(a, b).1)
}

/// The digits and decimal places of `|a / b|`, truncated after twelve places,
/// without trailing zero places.
pub open spec fn quotient_digits(a: u32, b: u32) -> (nat, nat) {
    let num = scaled(a) * ten_pow(scale_of(b)) * ten_pow(QUOTIENT_PLACES as nat);
    let den = scaled(b) * ten_pow(scale_of(a));
    strip_zeros(num / den, QUOTIENT_PLACES as nat)
}

/// The digits of `quotient_digits`, with the sign of `a / b`.
pub open spec fn signed_quotient(a: u32, b: u32) -> int {
    if is_negative_word(a) != is_negative_word(b) {
        -(quotient_digits(a, b).0 as int)
    } else {
        quotient_digits(a, b).0 as int
    }
}

/// Largest `scaled` of any word.
pub open spec fn scaled_max() -> nat {
    6710886467108864
}

/// Reads a word as its sign, its `scaled` magnitude and its decimal places.
fn scaled_parts(w: u32) -> (r: (bool, u64, u32))
    ensures
        r.0 == is_negative_word(w),
        r.1 as nat == scaled(w),
        r.2 as nat == scale_of(w),
        r.1 <= scaled_max(),
        r.2 <= 8,
        r.0 ==> r.1 > 0,
{
    let (neg, int_val, frac_val) = split_word(w);
    let k: u32 = decimal_places(frac_val as u64);
    proof {
        reveal_with_fuel(ten_pow, 9);
        assert(ten_pow(8) == 100000000);
        lemma_places_at_most(frac_val as nat, 8);
        lemma_ten_pow_monotone(k as nat, 8);
        lemma_ten_pow_positive(k as nat);
    }
    let unit: u128 = ten_pow_u128(k);
    assert(int_val as u128 * unit <= 67108864 * 100000000) by (nonlinear_arith)
        requires
            int_val <= 67108864,
            unit <= 100000000,
    ;
    let m: u64 = (int_val as u128 * unit + frac_val as u128) as u64;
    proof {
        if neg {
            lemma_two_pow_positive(pointer_of(w));
            lemma_fundamental_div_mod(magnitude_of(w) as int, two_pow(pointer_of(w)) as int);
            assert(magnitude_of(w) > 0);
            assert(int_val > 0 || frac_val > 0) by (nonlinear_arith)
                requires
                    magnitude_of(w) > 0,
                    magnitude_of(w) == int_part(w) * two_pow(pointer_of(w)) + frac_part(w),
                    int_val == int_part(w),
                    frac_val == frac_part(w),
            ;
            assert(int_val as u128 * unit >= int_val as u128) by (nonlinear_arith)
                requires
                    unit >= 1,
            ;
        }
    }
    (neg, m, k)
}

/// Whether the digits `m` over `k` places pack without loss (see `fits_places`).
fn places_fit(m: u128, k: u32) -> (r: bool)
    requires
        k <= 38,
    ensures
        r == fits_places(m as nat, k as nat),
{
    let unit: u128 = ten_pow_u128(k);
    proof {
        lemma_ten_pow_positive(k as nat);
    }
    let int_val: u128 = m / unit;
    let frac_val: u128 = m % unit;
    if frac_val >= 0x0400_0000 {
        return false;
    }
    let p: u32 = bit_length(frac_val as u32);
    proof {
        reveal_with_fuel(two_pow, 27);
        assert(two_pow(26) == 67108864);
        lemma_bit_length_at_most(frac_val as nat, 26);
        lemma_two_pow_positive(p as nat);
    }
    if int_val >= 0x0400_0000 {
        assert(int_val * two_pow(p as nat) >= int_val) by (nonlinear_arith)
            requires
                two_pow(p as nat) >= 1,
        ;
        return false;
    }
    let scale: u64 = two_pow_u64(p);
    proof {
        lemma_two_pow_monotone(p as nat, 26);
    }
    assert(int_val * (scale as u128) <= 67108864 * 67108864) by (nonlinear_arith)
        requires
            int_val < 67108864,
            scale <= 67108864,
    ;
    int_val * (scale as u128) + frac_val < 0x0400_0000
}

/// Builds the word for the decimal number `±m / 10^k` (see `from_scaled`).
fn word_from_scaled(neg: bool, m: u128, k: u32) -> (r: u32)
    requires
        k <= 38,
    ensures
        r == from_scaled(
            if neg {
                -(m as int)
            } else {
                m as int
            },
            k as nat,
        ),
        pointer_of(r) <= 26,
{
    let ghost t: int = if neg {
        -(m as int)
    } else {
        m as int
    };
    assert(abs_int(t) == m);
    let mut mm: u128 = m;
    let mut kk: u32 = k;
    while kk > 0
        invariant
            kk <= k <= 38,
            normalize(mm as nat, kk as nat) == normalize(m as nat, k as nat),
        ensures
            kk <= k <= 38,
            normalize(mm as nat, kk as nat) == normalize(m as nat, k as nat),
            kk == 0 || fits_places(mm as nat, kk as nat),
        decreases kk,
    {
        if places_fit(mm, kk) {
            break;
        }
        mm = mm / 10;
        kk = kk - 1;
    }
    let unit: u128 = ten_pow_u128(kk);
    proof {
        lemma_ten_pow_positive(kk as nat);
    }
    let int_val: u128 = mm / unit;
    let frac_val: u128 = mm % unit;
    proof {
        if kk == 0 {
            assert(ten_pow(0) == 1);
        }
        assert(normalize(mm as nat, kk as nat) == (mm as nat, kk as nat));
        lemma_pack_low_bits(t < 0, int_val as nat, frac_val as nat);
    }
    let sign: bool = neg && m > 0;
    pack_word(sign, (int_val % 0x0400_0000) as u64, frac_val as u64)
}

/// When the exact number has a word, renormalizing drops only zero places, and
/// the digits that are left pack without loss.
pub proof fn lemma_normalize_exact(m: nat, k: nat)
    requires
        fits_places(strip_zeros(m, k).0, strip_zeros(m, k).1),
    ensures
        normalize(m, k).1 <= k,
        normalize(m, k).0 * ten_pow((k - normalize(m, k).1) as nat) == m,
        fits_places(normalize(m, k).0, normalize(m, k).1),
    decreases k,
{
    let n = normalize(m, k);
    if k > 0 && !fits_places(m, k) {
        assert(m % 10 == 0);
        assert(strip_zeros(m, k) == strip_zeros(m / 10, (k - 1) as nat));
        lemma_normalize_exact(m / 10, (k - 1) as nat);
        assert(n == normalize(m / 10, (k - 1) as nat));
        let e = (k - 1 - n.1) as nat;
        assert(n.0 * ten_pow(e) == m / 10);
        assert(m == 10 * (m / 10));
        assert(ten_pow((k - n.1) as nat) == 10 * ten_pow(e));
        assert(n.0 * (10 * ten_pow(e)) == 10 * (n.0 * ten_pow(e))) by (nonlinear_arith);
        assert(n.0 * ten_pow((k - n.1) as nat) == m);
    } else {
        assert(n == (m, k));
        assert(ten_pow(0) == 1);
        assert((k - n.1) as nat == 0);
        assert(n.0 * ten_pow(0) == m);
        if k == 0 {
            assert(strip_zeros(m, k) == (m, k));
        }
    }
}

/// A number that has a word is packed exactly, with its sign.
pub proof fn lemma_from_scaled_represents(t: int, k: nat)
    requires
        exact_fit(t, k),
    ensures
        represents(from_scaled(t, k), t, k),
        is_negative_word(from_scaled(t, k)) == (t < 0),
{
    let m = abs_int(t);
    lemma_normalize_exact(m, k);
    let n = normalize(m, k);
    lemma_ten_pow_positive(n.1);
    lemma_ten_pow_positive((k - n.1) as nat);
    let i = n.0 / ten_pow(n.1);
    let f = n.0 % ten_pow(n.1);
    lemma_fundamental_div_mod(n.0 as int, ten_pow(n.1) as int);
    lemma_pack_fields(t < 0, i, f);
    let b = spec_bit_length(f);
    lemma_two_pow_positive(b);
    if t < 0 {
        assert(n.0 > 0) by (nonlinear_arith)
            requires
                n.0 * ten_pow((k - n.1) as nat) == m,
                m > 0,
        ;
        assert(packed_magnitude(i, f) > 0) by (nonlinear_arith)
            requires
                n.0 > 0,
                n.0 == ten_pow(n.1) * i + f,
                packed_magnitude(i, f) == i * two_pow(b) + f,
                two_pow(b) >= 1,
        ;
    }
}

/// Both words' signed numbers aligned to the finer of their decimal places.
fn aligned_pair(a: u32, b: u32) -> (r: (i128, i128, u32))
    ensures
        r.2 as nat == max_nat(scale_of(a), scale_of(b)),
        r.0 as int == aligned(a, r.2 as nat),
        r.1 as int == aligned(b, r.2 as nat),
        r.2 <= 8,
        -1_000_000_000_000_000_000_000_000 <= r.0 <= 1_000_000_000_000_000_000_000_000,
        -1_000_000_000_000_000_000_000_000 <= r.1 <= 1_000_000_000_000_000_000_000_000,
{
    let (na, ma, ka) = scaled_parts(a);
    let (nb, mb, kb) = scaled_parts(b);
    let k: u32 = if ka > kb {
        ka
    } else {
        kb
    };
    let ua: u128 = ten_pow_u128(k - ka);
    let ub: u128 = ten_pow_u128(k - kb);
    proof {
        reveal_with_fuel(ten_pow, 9);
        assert(ten_pow(8) == 100000000);
        lemma_ten_pow_monotone((k - ka) as nat, 8);
        lemma_ten_pow_monotone((k - kb) as nat, 8);
    }
    assert(ma as u128 * ua <= 6710886467108864 * 100000000) by (nonlinear_arith)
        requires
            ma <= 6710886467108864,
            ua <= 100000000,
    ;
    assert(mb as u128 * ub <= 6710886467108864 * 100000000) by (nonlinear_arith)
        requires
            mb <= 6710886467108864,
            ub <= 100000000,
    ;
    let xa: i128 = (ma as u128 * ua) as i128;
    let xb: i128 = (mb as u128 * ub) as i128;
    let ta: i128 = if na {
        -xa
    } else {
        xa
    };
    let tb: i128 = if nb {
        -xb
    } else {
        xb
    };
    proof {
        assert(signed_scaled(a) * ten_pow((k - ka) as nat) == ta as int) by (nonlinear_arith)
            requires
                signed_scaled(a) == (if na {
                    -(ma as int)
                } else {
                    ma as int
                }),
                ten_pow((k - ka) as nat) == ua,
                xa == ma * ua,
                ta as int == (if na {
                    -(xa as int)
                } else {
                    xa as int
                }),
        ;
        assert(signed_scaled(b) * ten_pow((k - kb) as nat) == tb as int) by (nonlinear_arith)
            requires
                signed_scaled(b) == (if nb {
                    -(mb as int)
                } else {
                    mb as int
                }),
                ten_pow((k - kb) as nat) == ub,
                xb == mb * ub,
                tb as int == (if nb {
                    -(xb as int)
                } else {
                    xb as int
                }),
        ;
    }
    (ta, tb, k)
}

/// Splits a signed number into its sign and magnitude.
fn sign_and_magnitude(t: i128) -> (r: (bool, u128))
    requires
        t > i128::MIN,
    ensures
        r.0 == (t < 0),
        r.1 as int == abs_int(t as int),
{
    if t < 0 {
        (true, (-t) as u128)
    } else {
        (false, t as u128)
    }
}

/// Adds two words: the fractions are aligned by decimal place (`0.25 + 0.5`
/// is `0.75`), and the sum is packed again (see `normalize`). When the exact
/// sum has a word, the result holds it exactly, with its sign. A fraction is
/// kept as the integer its digits write, so leading zeros of a result's
/// fraction are lost: `0.15 + 0.9` decodes to `1.5`.
pub fn add_words(a: u32, b: u32) -> (r: u32)
    ensures
        r == sum_word(a, b),
        well_formed_word(r),
        exact_fit(exact_sum(a, b), common_places(a, b)) ==> represents(
            r,
            exact_sum(a, b),
            common_places(a, b),
        ) && is_negative_word(r) == (exact_sum(a, b) < 0),
{
    let (ta, tb, k) = aligned_pair(a, b);
    let (neg, m) = sign_and_magnitude(ta + tb);
    proof {
        if exact_fit(exact_sum(a, b), common_places(a, b)) {
            lemma_from_scaled_represents(exact_sum(a, b), common_places(a, b));
        }
    }
    word_from_scaled(neg, m, k)
}

/// Subtracts the word `b` from the word `a`, aligned by decimal place. When
/// the exact difference has a word, the result holds it exactly, with its
/// sign; leading zeros of the result's fraction are lost, as for addition.
pub fn sub_words(a: u32, b: u32) -> (r: u32)
    ensures
        r == difference_word(a, b),
        well_formed_word(r),
        exact_fit(exact_difference(a, b), common_places(a, b)) ==> represents(
            r,
            exact_difference(a, b),
            common_places(a, b),
        ) && is_negative_word(r) == (exact_difference(a, b) < 0),
{
    let (ta, tb, k) = aligned_pair(a, b);
    let (neg, m) = sign_and_magnitude(ta - tb);
    proof {
        if exact_fit(exact_difference(a, b), common_places(a, b)) {
            lemma_from_scaled_represents(exact_difference(a, b), common_places(a, b));
        }
    }
    word_from_scaled(neg, m, k)
}

/// Multiplies two words as decimal numbers (`0.25 * 0.5` is `0.125`). When
/// the exact product has a word, the result holds it exactly, with its sign;
/// leading zeros of the result's fraction are lost (`0.1 * 0.2` decodes to
/// `0.2`), as for addition.
pub fn mul_words(a: u32, b: u32) -> (r: u32)
    ensures
        r == product_word(a, b),
        well_formed_word(r),
        exact_fit(signed_scaled(a) * signed_scaled(b), scale_of(a) + scale_of(b)) ==> represents(
            r,
            signed_scaled(a) * signed_scaled(b),
            scale_of(a) + scale_of(b),
        ) && is_negative_word(r) == (signed_scaled(a) * signed_scaled(b) < 0),
{
    proof {
        if exact_fit(signed_scaled(a) * signed_scaled(b), scale_of(a) + scale_of(b)) {
            lemma_from_scaled_represents(
                signed_scaled(a) * signed_scaled(b),
                scale_of(a) + scale_of(b),
            );
        }
    }
    let (na, ma, ka) = scaled_parts(a);
    let (nb, mb, kb) = scaled_parts(b);
    assert(ma as u128 * mb as u128 <= 6710886467108864 * 6710886467108864) by (nonlinear_arith)
        requires
            ma <= 6710886467108864,
            mb <= 6710886467108864,
    ;
    let m: u128 = ma as u128 * mb as u128;
    let neg: bool = na != nb;
    proof {
        assert(signed_scaled(a) * signed_scaled(b) == (if neg {
            -(m as int)
        } else {
            m as int
        })) by (nonlinear_arith)
            requires
                signed_scaled(a) == (if na {
                    -(ma as int)
                } else {
                    ma as int
                }),
                signed_scaled(b) == (if nb {
                    -(mb as int)
                } else {
                    mb as int
                }),
                m == ma * mb,
                neg == (na != nb),
        ;
    }
    word_from_scaled(neg, m, ka + kb)
}

/// Divides the word `a` by the word `b` as decimal numbers; a divisor that
/// decodes to zero is refused.
pub fn div_words(a: u32, b: u32) -> (r: Result<u32, AfError>)
    ensures
        match r {
            Ok(w) => {
                &&& scaled(b) > 0
                &&& w == quotient_word(a, b)
                &&& well_formed_word(w)
                &&& exact_fit(signed_quotient(a, b), quotient_digits(a, b).1) ==> represents(
                    w,
                    signed_quotient(a, b),
                    quotient_digits(a, b).1,
                ) && is_negative_word(w) == (signed_quotient(a, b) < 0)
            },
            Err(e) => scaled(b) == 0 && e == AfError::DivisionByZero,
        },
{
    let (na, ma, ka) = scaled_parts(a);
    let (nb, mb, kb) = scaled_parts(b);
    if mb == 0 {
        return Err(AfError::DivisionByZero);
    }
    let ua: u128 = ten_pow_u128(ka);
    let ub: u128 = ten_pow_u128(kb);
    let uq: u128 = ten_pow_u128(QUOTIENT_PLACES);
    proof {
        reveal_with_fuel(ten_pow, 13);
        assert(ten_pow(8) == 100000000);
        assert(ten_pow(12) == 1000000000000);
        lemma_ten_pow_monotone(ka as nat, 8);
        lemma_ten_pow_monotone(kb as nat, 8);
        lemma_ten_pow_positive(ka as nat);
    }
    assert(ma as u128 * ub * uq <= 6710886467108864 * 100000000 * 1000000000000) by (
    nonlinear_arith)
        requires
            ma <= 6710886467108864,
            ub <= 100000000,
            uq == 1000000000000,
    ;
    assert(mb as u128 * ua <= 6710886467108864 * 100000000) by (nonlinear_arith)
        requires
            mb <= 6710886467108864,
            ua <= 100000000,
    ;
    assert(mb as u128 * ua > 0) by (nonlinear_arith)
        requires
            mb > 0,
            ua >= 1,
    ;
    let num: u128 = ma as u128 * ub * uq;
    let den: u128 = mb as u128 * ua;
    let mut q: u128 = num / den;
    let mut k: u32 = QUOTIENT_PLACES;
    while k > 0 && q % 10 == 0
        invariant
            k <= QUOTIENT_PLACES,
            strip_zeros(q as nat, k as nat) == strip_zeros(
                (num / den) as nat,
                QUOTIENT_PLACES as nat,
            ),
        decreases k,
    {
        q = q / 10;
        k = k - 1;
    }
    assert(strip_zeros(q as nat, k as nat) == (q as nat, k as nat));
    proof {
        if exact_fit(signed_quotient(a, b), quotient_digits(a, b).1) {
            lemma_from_scaled_represents(signed_quotient(a, b), quotient_digits(a, b).1);
        }
    }
    Ok(word_from_scaled(na != nb, q, k))
}

/// A word whose pointer stays within the 26 bits that the value's magnitude
/// has, as every encoded or computed word does.
pub open spec fn well_formed_word(w: u32) -> bool {
    pointer_of(w) <= 26
}

/// Rebuilding a well-formed word from its own digits, with either sign, keeps
/// its digits and takes that sign (zero stays unsigned).
pub proof fn lemma_from_scaled_exact(w: u32, neg: bool)
    requires
        well_formed_word(w),
    ensures
        decoded(
            from_scaled(
                if neg {
                    -(scaled(w) as int)
                } else {
                    scaled(w) as int
                },
                scale_of(w),
            ),
        ) == render(neg && scaled(w) > 0, int_part(w), frac_part(w)),
{
    let p = pointer_of(w);
    let d = scale_of(w);
    let i = int_part(w);
    let f = frac_part(w);
    let m = scaled(w);
    let mag = magnitude_of(w);
    lemma_two_pow_positive(p);
    lemma_fundamental_div_mod(mag as int, two_pow(p) as int);
    assert(f < two_pow(p));
    reveal_with_fuel(two_pow, 27);
    assert(two_pow(26) == 67108864);
    lemma_two_pow_monotone(p, 26);
    lemma_places_bound(f);
    lemma_ten_pow_positive(d);
    lemma_fundamental_div_mod_converse(
        m as int,
        ten_pow(d) as int,
        i as int,
        f as int,
    );
    let t: int = if neg {
        -(m as int)
    } else {
        m as int
    };
    assert(abs_int(t) == m);
    // The digits need no more bits than the word gave them.
    let b = spec_bit_length(f);
    lemma_bit_length_at_most(f, p);
    lemma_two_pow_monotone(b, p);
    assert(i * two_pow(b) <= i * two_pow(p)) by (nonlinear_arith)
        requires
            two_pow(b) <= two_pow(p),
    ;
    assert(packed_magnitude(i, f) <= mag);
    assert(fits_places(m, d));
    assert(normalize(m, d) == (m, d));
    lemma_pack_fields(t < 0, i, f);
    lemma_two_pow_positive(b);
    assert(packed_magnitude(i, f) > 0 <==> m > 0) by (nonlinear_arith)
        requires
            two_pow(b) >= 1,
            ten_pow(d) >= 1,
            packed_magnitude(i, f) == i * two_pow(b) + f,
            m == i * ten_pow(d) + f,
    ;
}

/// The word `0` is the number zero, with no decimal places.
pub proof fn lemma_zero_word()
    ensures
        int_part(0) == 0,
        frac_part(0) == 0,
        scale_of(0) == 0,
        scaled(0) == 0,
        signed_scaled(0) == 0,
        ten_pow(0) == 1,
{
    assert(magnitude_of(0) == 0);
    assert(two_pow(0) == 1);
    assert(places(0) == 0);
}

/// Adding zero leaves a well-formed number's text as it is.
pub proof fn lemma_add_zero(a: u32)
    requires
        well_formed_word(a),
    ensures
        decoded(sum_word(a, 0)) == decoded(a),
{
    lemma_zero_word();
    let k = scale_of(a);
    assert(max_nat(scale_of(a), scale_of(0)) == k);
    assert((k - scale_of(a)) as nat == 0);
    assert(aligned(a, k) == signed_scaled(a) * 1);
    assert(aligned(a, k) == signed_scaled(a));
    assert(aligned(0, k) == 0 * ten_pow(k));
    assert(aligned(0, k) == 0);
    lemma_from_scaled_exact(a, is_negative_word(a));
    lemma_sign_needs_digits(a);
}

/// A number minus itself is zero, written `0.0`.
pub proof fn lemma_sub_self(a: u32)
    ensures
        difference_word(a, a) == 0,
        decoded(difference_word(a, a)) == seq!['0', '.', '0'],
{
    let k = max_nat(scale_of(a), scale_of(a));
    assert(aligned(a, k) - aligned(a, k) == 0);
    lemma_ten_pow_positive(k);
    assert(spec_bit_length(0) == 0);
    assert(two_pow(0) == 1);
    assert(packed_magnitude(0, 0) == 0);
    assert(fits_places(0, k));
    assert(normalize(0, k) == (0nat, k));
    assert(pack(false, 0, 0) == 0);
    assert(magnitude_of(0) == 0);
    assert(int_part(0) == 0);
    assert(frac_part(0) == 0);
    assert(crate::digits::decimal(0) == seq!['0']);
    assert(decoded(0) =~= seq!['0', '.', '0']);
}

/// Addition does not depend on the order of its operands.
pub proof fn lemma_add_commutative(a: u32, b: u32)
    ensures
        sum_word(a, b) == sum_word(b, a),
{
    let k = max_nat(scale_of(a), scale_of(b));
    assert(max_nat(scale_of(b), scale_of(a)) == k);
    assert(aligned(a, k) + aligned(b, k) == aligned(b, k) + aligned(a, k));
}

/// Multiplication does not depend on the order of its operands.
pub proof fn lemma_mul_commutative(a: u32, b: u32)
    ensures
        product_word(a, b) == product_word(b, a),
{
    assert(signed_scaled(a) * signed_scaled(b) == signed_scaled(b) * signed_scaled(a)) by (
    nonlinear_arith);
    assert(scale_of(a) + scale_of(b) == scale_of(b) + scale_of(a));
}

/// Zero minus a well-formed number flips its sign and keeps its digits; zero
/// stays unsigned.
pub proof fn lemma_negation(a: u32)
    requires
        well_formed_word(a),
    ensures
        decoded(difference_word(0, a)) == render(
            !is_negative_word(a) && scaled(a) > 0,
            int_part(a),
            frac_part(a),
        ),
{
    lemma_zero_word();
    let k = scale_of(a);
    assert(max_nat(scale_of(0), scale_of(a)) == k);
    assert((k - scale_of(a)) as nat == 0);
    assert(aligned(a, k) == signed_scaled(a) * 1);
    assert(aligned(0, k) == 0 * ten_pow(k));
    lemma_from_scaled_exact(a, !is_negative_word(a));
    assert(aligned(0, k) - aligned(a, k) == (if !is_negative_word(a) {
        -(scaled(a) as int)
    } else {
        scaled(a) as int
    }));
}

/// The four operations of a packed decimal type, each returning a new packed
/// number.
pub trait AccurateOps: Sized {
    /// The packed word of the number.
    spec fn word(&self) -> u32;

    fn add(self, other: Self) -> (r: Self)
        ensures
            r.word() == sum_word(self.word(), other.word()),
    ;

    fn sub(self, other: Self) -> (r: Self)
        ensures
            r.word() == difference_word(self.word(), other.word()),
    ;

    fn mul(self, other: Self) -> (r: Self)
        ensures
            r.word() == product_word(self.word(), other.word()),
    ;

    /// The quotient, or `DivisionByZero` exactly when `other` is zero.
    fn div(self, other: Self) -> (r: Result<Self, AfError>)
        ensures
            match r {
                Ok(x) => scaled(other.word()) > 0 && x.word() == quotient_word(
                    self.word(),
                    other.word(),
                ),
                Err(e) => scaled(other.word()) == 0 && e == AfError::DivisionByZero,
            },
    ;
}

/// No word is a negative zero: a set sign always comes with digits.
pub proof fn lemma_sign_needs_digits(w: u32)
    ensures
        is_negative_word(w) ==> scaled(w) > 0 && (int_part(w) > 0 || frac_part(w) > 0),
{
    if is_negative_word(w) {
        lemma_two_pow_positive(pointer_of(w));
        lemma_fundamental_div_mod(magnitude_of(w) as int, two_pow(pointer_of(w)) as int);
        lemma_ten_pow_positive(scale_of(w));
        assert(scaled(w) > 0 && (int_part(w) > 0 || frac_part(w) > 0)) by (nonlinear_arith)
            requires
                magnitude_of(w) > 0,
                magnitude_of(w) == two_pow(pointer_of(w)) * int_part(w) + frac_part(w),
                scaled(w) == int_part(w) * ten_pow(scale_of(w)) + frac_part(w),
                ten_pow(scale_of(w)) >= 1,
        ;
    }
}

/// Dropping trailing zero places keeps the number: `m / 10^k` is unchanged.
pub proof fn lemma_strip_zeros(m: nat, k: nat)
    ensures
        strip_zeros(m, k).1 <= k,
        strip_zeros(m, k).0 * ten_pow((k - strip_zeros(m, k).1) as nat) == m,
    decreases k,
{
    let r = strip_zeros(m, k);
    if k > 0 && m % 10 == 0 {
        lemma_strip_zeros(m / 10, (k - 1) as nat);
        assert(r == strip_zeros(m / 10, (k - 1) as nat));
        let e = (k - 1 - r.1) as nat;
        assert(r.0 * ten_pow(e) == m / 10);
        assert(m == 10 * (m / 10));
        assert(ten_pow((k - r.1) as nat) == 10 * ten_pow(e));
        assert(r.0 * (10 * ten_pow(e)) == 10 * (r.0 * ten_pow(e))) by (nonlinear_arith);
        assert(r.0 * ten_pow((k - r.1) as nat) == m);
    } else {
        assert(r == (m, k));
        assert((k - r.1) as nat == 0);
        assert(ten_pow(0) == 1);
        assert(r.0 * ten_pow(0) == m);
    }
}

/// When `a / b` has at most twelve decimal places, the quotient is exact: the
/// digits `q` and places `k` that are packed satisfy `q / 10^k == a / b`,
/// that is `q * 10^(12 - k) * (scaled(b) * 10^places(a)) ==
/// scaled(a) * 10^places(b) * 10^12`.
pub proof fn lemma_quotient_exact(a: u32, b: u32)
    requires
        scaled(b) > 0,
        (scaled(a) * ten_pow(scale_of(b)) * ten_pow(QUOTIENT_PLACES as nat)) % (scaled(b)
            * ten_pow(scale_of(a))) == 0,
    ensures
        ({
            let num = scaled(a) * ten_pow(scale_of(b)) * ten_pow(QUOTIENT_PLACES as nat);
            let den = scaled(b) * ten_pow(scale_of(a));
            let q = strip_zeros(num / den, QUOTIENT_PLACES as nat);
            q.0 * ten_pow((QUOTIENT_PLACES - q.1) as nat) * den == num
        }),
{
    let num = scaled(a) * ten_pow(scale_of(b)) * ten_pow(QUOTIENT_PLACES as nat);
    let den = scaled(b) * ten_pow(scale_of(a));
    lemma_ten_pow_positive(scale_of(a));
    assert(den > 0) by (nonlinear_arith)
        requires
            scaled(b) > 0,
            ten_pow(scale_of(a)) >= 1,
            den == scaled(b) * ten_pow(scale_of(a)),
    ;
    lemma_fundamental_div_mod(num as int, den as int);
    lemma_strip_zeros(num / den, QUOTIENT_PLACES as nat);
    let q = strip_zeros(num / den, QUOTIENT_PLACES as nat);
    assert(q.0 * ten_pow((QUOTIENT_PLACES - q.1) as nat) == num / den);
    assert(num == den * (num / den));
    assert((num / den) * den == num) by (nonlinear_arith)
        requires
            num == den * (num / den),
    ;
}

} // verus!
