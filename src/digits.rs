//! Decimal digits: their values, the decimal text of a number, and reading
//! digits out of a text.
use vstd::prelude::*;

verus! {

/// `10^n`.
pub open spec fn ten_pow(n: nat) -> nat
    decreases n,
{
    if n == 0 {
        1
    } else {
        10 * ten_pow((n - 1) as nat)
    }
}

pub open spec fn is_digit(c: char) -> bool {
    '0' <= c && c <= '9'
}

pub open spec fn all_digits(t: Seq<char>) -> bool {
    forall|i: int| 0 <= i < t.len() ==> is_digit(#[trigger] t[i])
}

/// The value of one decimal digit character.
pub open spec fn digit_value(c: char) -> nat {
    ((c as u32) - ('0' as u32)) as nat
}

/// The character that writes the digit `d` (below ten).
pub open spec fn digit_char(d: nat) -> char {
    if d == 0 {
        '0'
    } else if d == 1 {
        '1'
    } else if d == 2 {
        '2'
    } else if d == 3 {
        '3'
    } else if d == 4 {
        '4'
    } else if d == 5 {
        '5'
    } else if d == 6 {
        '6'
    } else if d == 7 {
        '7'
    } else if d == 8 {
        '8'
    } else {
        '9'
    }
}

/// The value of a sequence of decimal digits, most significant first; empty is zero.
pub open spec fn digits_value(t: Seq<char>) -> nat
    decreases t.len(),
{
    if t.len() == 0 {
        0
    } else {
        digits_value(t.drop_last()) * 10 + digit_value(t.last())
    }
}

/// `n` written in decimal, without leading zeros (zero is written `0`).
pub open spec fn decimal(n: nat) -> Seq<char>
    decreases n,
{
    if n < 10 {
        seq![digit_char(n)]
    } else {
        decimal(n / 10).push(digit_char(n % 10))
    }
}

/// How many decimal digits the fraction `n` carries; a zero fraction carries none.
pub open spec fn places(n: nat) -> nat
    decreases n,
{
    if n == 0 {
        0
    } else {
        1 + places(n / 10)
    }
}

pub proof fn lemma_digit_char(d: nat)
    requires
        d < 10,
    ensures
        is_digit(digit_char(d)),
        digit_value(digit_char(d)) == d,
        digit_char(d) != '.',
        digit_char(d) != '-',
        digit_char(d) != '+',
{
}

/// Writing a number in decimal and reading it back gives the number.
pub proof fn lemma_decimal_digits(n: nat)
    ensures
        all_digits(decimal(n)),
        digits_value(decimal(n)) == n,
        decimal(n).len() >= 1,
    decreases n,
{
    if n < 10 {
        lemma_digit_char(n);
        let t = decimal(n);
        assert(t.drop_last() =~= Seq::<char>::empty());
        assert(digits_value(t) == digits_value(t.drop_last()) * 10 + digit_value(t.last()));
    } else {
        lemma_decimal_digits(n / 10);
        lemma_digit_char(n % 10);
        let t = decimal(n);
        assert(t.drop_last() =~= decimal(n / 10));
        assert forall|i: int| 0 <= i < t.len() implies is_digit(#[trigger] t[i]) by {
            if i < t.len() - 1 {
                assert(t[i] == decimal(n / 10)[i]);
            }
        }
        assert(t.last() == digit_char(n % 10));
        assert(digits_value(t) == digits_value(t.drop_last()) * 10 + digit_value(t.last()));
    }
}

pub proof fn lemma_ten_pow_positive(n: nat)
    ensures
        ten_pow(n) >= 1,
    decreases n,
{
    if n > 0 {
        lemma_ten_pow_positive((n - 1) as nat);
    }
}

/// A fraction's digits fit in `places(n)` decimal places.
pub proof fn lemma_places_bound(n: nat)
    ensures
        n < ten_pow(places(n)),
    decreases n,
{
    if n > 0 {
        lemma_places_bound(n / 10);
    }
}

/// Exact `10^n` for the small exponents this crate uses.
pub fn ten_pow_u128(n: u32) -> (r: u128)
    requires
        n <= 38,
    ensures
        r as nat == ten_pow(n as nat),
{
    proof {
        lemma_ten_pow_monotone(0, 38);
        reveal_with_fuel(ten_pow, 39);
        assert(ten_pow(38) == 100000000000000000000000000000000000000);
    }
    let mut r: u128 = 1;
    let mut i: u32 = 0;
    while i < n
        invariant
            i <= n <= 38,
            r as nat == ten_pow(i as nat),
            ten_pow(i as nat) <= ten_pow(38),
            ten_pow(38) == 100000000000000000000000000000000000000,
        decreases n - i,
    {
        proof {
            lemma_ten_pow_monotone((i + 1) as nat, 38);
        }
        r = r * 10;
        i = i + 1;
    }
    r
}

pub proof fn lemma_ten_pow_monotone(a: nat, b: nat)
    requires
        a <= b,
    ensures
        ten_pow(a) <= ten_pow(b),
    decreases b,
{
    if a < b {
        lemma_ten_pow_monotone(a, (b - 1) as nat);
        lemma_ten_pow_positive((b - 1) as nat);
    }
}

/// The one-character text of the digit `d`.
fn digit_text(d: u64) -> (r: &'static str)
    requires
        d < 10,
    ensures
        r@ == seq![digit_char(d as nat)],
{
    if d == 0 {
        proof { reveal_strlit("0"); }
        "0"
    } else if d == 1 {
        proof { reveal_strlit("1"); }
        "1"
    } else if d == 2 {
        proof { reveal_strlit("2"); }
        "2"
    } else if d == 3 {
        proof { reveal_strlit("3"); }
        "3"
    } else if d == 4 {
        proof { reveal_strlit("4"); }
        "4"
    } else if d == 5 {
        proof { reveal_strlit("5"); }
        "5"
    } else if d == 6 {
        proof { reveal_strlit("6"); }
        "6"
    } else if d == 7 {
        proof { reveal_strlit("7"); }
        "7"
    } else if d == 8 {
        proof { reveal_strlit("8"); }
        "8"
    } else {
        proof { reveal_strlit("9"); }
        "9"
    }
}

/// Appends `n` written in decimal.
pub fn push_decimal(out: &mut String, n: u64)
    ensures
        final(out)@ == old(out)@ + decimal(n as nat),
    decreases n,
{
    if n >= 10 {
        push_decimal(out, n / 10);
    }
    out.append(digit_text(n % 10));
    proof {
        if n >= 10 {
            assert(decimal(n as nat) == decimal((n / 10) as nat).push(digit_char((n % 10) as nat)));
        }
        assert(final(out)@ =~= old(out)@ + decimal(n as nat));
    }
}

/// Reads the decimal digits `s[from..to]` modulo `modulus`.
pub fn read_digits_mod(s: &str, from: usize, to: usize, modulus: u64) -> (r: u64)
    requires
        from <= to <= s@.len(),
        all_digits(s@.subrange(from as int, to as int)),
        0 < modulus < 0x1000_0000_0000_0000,
    ensures
        r as nat == digits_value(s@.subrange(from as int, to as int)) % (modulus as nat),
{
    let mut acc: u64 = 0;
    let mut k: usize = from;
    assert(digits_value(s@.subrange(from as int, from as int)) == 0);
    assert(0nat % (modulus as nat) == 0) by (nonlinear_arith)
        requires
            modulus > 0,
    ;
    while k < to
        invariant
            from <= k <= to <= s@.len(),
            all_digits(s@.subrange(from as int, to as int)),
            0 < modulus < 0x1000_0000_0000_0000,
            acc as nat == digits_value(s@.subrange(from as int, k as int)) % (modulus as nat),
        decreases to - k,
    {
        let c = s.get_char(k);
        assert(is_digit(s@.subrange(from as int, to as int)[k - from]));
        let d: u64 = (c as u32 - '0' as u32) as u64;
        let ghost prev = digits_value(s@.subrange(from as int, k as int));
        proof {
            let next = s@.subrange(from as int, k + 1);
            assert(next.drop_last() =~= s@.subrange(from as int, k as int));
            assert(digits_value(next) == prev * 10 + d);
            lemma_mod_step(prev, d as nat, modulus as nat);
        }
        acc = (acc * 10 + d) % modulus;
        k = k + 1;
    }
    acc
}

/// Appending a digit commutes with reduction modulo `m`.
pub proof fn lemma_mod_step(v: nat, d: nat, m: nat)
    requires
        m > 0,
    ensures
        (v * 10 + d) % m == ((v % m) * 10 + d) % m,
{
    let mi = m as int;
    vstd::arithmetic::div_mod::lemma_mul_mod_noop_left(v as int, 10, mi);
    vstd::arithmetic::div_mod::lemma_add_mod_noop((v * 10) as int, d as int, mi);
    vstd::arithmetic::div_mod::lemma_add_mod_noop(((v % m) * 10) as int, d as int, mi);
    vstd::arithmetic::div_mod::lemma_mod_twice((v * 10) as int, mi);
    vstd::arithmetic::div_mod::lemma_mod_twice(((v % m) * 10) as int, mi);
}

/// Reads the decimal digits `s[from..to]`, stopping at `cap`: the result is
/// their value, or `cap` when the value reaches it.
pub fn read_digits_capped(s: &str, from: usize, to: usize, cap: u64) -> (r: u64)
    requires
        from <= to <= s@.len(),
        all_digits(s@.subrange(from as int, to as int)),
        0 < cap < 0x1000_0000_0000_0000,
    ensures
        r as nat == if digits_value(s@.subrange(from as int, to as int)) < cap {
            digits_value(s@.subrange(from as int, to as int))
        } else {
            cap as nat
        },
{
    let mut acc: u64 = 0;
    let mut k: usize = from;
    while k < to
        invariant
            from <= k <= to <= s@.len(),
            all_digits(s@.subrange(from as int, to as int)),
            0 < cap < 0x1000_0000_0000_0000,
            acc <= cap,
            acc as nat == if digits_value(s@.subrange(from as int, k as int)) < cap {
                digits_value(s@.subrange(from as int, k as int))
            } else {
                cap as nat
            },
        decreases to - k,
    {
        let c = s.get_char(k);
        assert(is_digit(s@.subrange(from as int, to as int)[k - from]));
        let d: u64 = (c as u32 - '0' as u32) as u64;
        proof {
            let next = s@.subrange(from as int, k + 1);
            assert(next.drop_last() =~= s@.subrange(from as int, k as int));
            assert(digits_value(next) == digits_value(s@.subrange(from as int, k as int)) * 10
                + d);
        }
        let grown: u64 = acc * 10 + d;
        acc = if grown < cap {
            grown
        } else {
            cap
        };
        k = k + 1;
    }
    acc
}

/// A number below `10^k` carries at most `k` decimal places.
pub proof fn lemma_places_at_most(n: nat, k: nat)
    requires
        n < ten_pow(k),
    ensures
        places(n) <= k,
    decreases k,
{
    if n > 0 {
        if k == 0 {
            assert(ten_pow(0) == 1);
        } else {
            lemma_places_at_most(n / 10, (k - 1) as nat);
        }
    }
}

/// Counts the decimal places of the fraction `n`.
pub fn decimal_places(n: u64) -> (r: u32)
    ensures
        r as nat == places(n as nat),
        r <= 20,
{
    proof {
        reveal_with_fuel(ten_pow, 21);
        assert(ten_pow(20) == 100000000000000000000);
        lemma_places_at_most(n as nat, 20);
    }
    let mut m: u64 = n;
    let mut count: u32 = 0;
    while m > 0
        invariant
            count + places(m as nat) == places(n as nat),
            places(n as nat) <= 20,
        decreases m,
    {
        m = m / 10;
        count = count + 1;
    }
    count
}

} // verus!
