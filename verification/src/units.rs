//! Byte counts and other numbers as people read them.
//!
//! A size is shown the way a double-precision value prints: the byte count
//! is taken to the nearest double, divided by 1024 once per unit step, and
//! printed with two decimals, a tie going to the even digit. Every step of
//! that is exact on whole numbers, so it is stated and computed here on
//! integers alone.
use vstd::prelude::*;
use vstd::arithmetic::div_mod::{lemma_div_denominator, lemma_fundamental_div_mod};

verus! {

/// The character of the decimal digit `d`.
pub open spec fn digit_char(d: nat) -> char {
    (48 + d) as char
}

/// The decimal numeral of `n`, without leading zeros.
pub open spec fn decimal(n: nat) -> Seq<char>
    decreases n,
{
    if n < 10 {
        seq![digit_char(n)]
    } else {
        decimal(n / 10).push(digit_char(n % 10))
    }
}

fn digit_of(d: u128) -> (c: char)
    requires
        d < 10,
    ensures
        c == digit_char(d as nat),
{
    let b: u8 = 48u8 + (d as u8);
    b as char
}

/// Appends the decimal numeral of `n` to `out`.
pub fn push_decimal(out: &mut String, n: u128)
    ensures
        final(out)@ == old(out)@ + decimal(n as nat),
    decreases n,
{
    let ghost start = out@;
    if n >= 10 {
        push_decimal(out, n / 10);
    }
    out.push(digit_of(n % 10));
    proof {
        if n >= 10 {
            assert(out@ =~= start + decimal(n as nat));
        } else {
            assert(out@ =~= start + decimal(n as nat));
        }
    }
}

/// The decimal numeral of `n`.
pub fn decimal_string(n: u64) -> (r: String)
    ensures
        r@ == decimal(n as nat),
{
    let mut r = String::new();
    push_decimal(&mut r, n as u128);
    assert(r@ =~= decimal(n as nat));
    r
}

/// `1024` to the power `u`.
pub open spec fn pow1024(u: nat) -> nat
    decreases u,
{
    if u == 0 {
        1
    } else {
        1024 * pow1024((u - 1) as nat)
    }
}

/// The power of two that `n` is divided by to fit the 53 significant bits of
/// a double.
pub open spec fn scale(n: nat) -> nat
    decreases n,
{
    if n < 0x20_0000_0000_0000 {
        1
    } else {
        2 * scale(n / 2)
    }
}

/// `a / b` rounded to the nearest whole number, a tie going to the even one.
pub open spec fn div_round_even(a: nat, b: nat) -> nat {
    let q = a / b;
    let r = a % b;
    if 2 * r > b || (2 * r == b && q % 2 == 1) {
        q + 1
    } else {
        q
    }
}

/// The double nearest to `n`, a tie going to the even significand; it is
/// again a whole number.
pub open spec fn as_double(n: nat) -> nat {
    div_round_even(n, scale(n)) * scale(n)
}

/// The unit a value of `v` bytes is shown in, starting the search at `u`: a
/// step up for as long as at least `1024` of the next unit remain, up to
/// the fifth unit.
pub open spec fn unit_of(v: nat, u: nat) -> nat
    decreases 4 - u,
{
    if u >= 4 || v < 1024 * pow1024(u) {
        u
    } else {
        unit_of(v, u + 1)
    }
}

/// The names of the units.
pub open spec fn unit_name(u: nat) -> Seq<char> {
    if u == 0 {
        "B"@
    } else if u == 1 {
        "KB"@
    } else if u == 2 {
        "MB"@
    } else if u == 3 {
        "GB"@
    } else {
        "TB"@
    }
}

/// How `bytes` reads: whole bytes below a kilobyte, otherwise the value in
/// its unit with two decimals.
pub open spec fn spec_format_bytes(bytes: nat) -> Seq<char> {
    let v = as_double(bytes);
    let u = unit_of(v, 0);
    if u == 0 {
        decimal(bytes) + " B"@
    } else {
        let h = div_round_even(v * 100, pow1024(u));
        decimal(h / 100) + seq!['.', digit_char(h % 100 / 10), digit_char(h % 10), ' ']
            + unit_name(u)
    }
}

fn unit_name_of(u: usize) -> (r: &'static str)
    requires
        1 <= u <= 4,
    ensures
        r@ == unit_name(u as nat),
{
    if u == 1 {
        "KB"
    } else if u == 2 {
        "MB"
    } else if u == 3 {
        "GB"
    } else {
        "TB"
    }
}

proof fn lemma_pow1024_small(u: nat)
    requires
        u <= 4,
    ensures
        u <= 3 ==> pow1024(u) <= 0x4000_0000,
        1 <= pow1024(u) <= 0x100_0000_0000,
{
    reveal_with_fuel(pow1024, 5);
    if u == 0 {
    } else if u == 1 {
    } else if u == 2 {
    } else if u == 3 {
    } else {
    }
}

/// The nearest double to `bytes`, with the scale it was rounded at.
fn nearest_double(bytes: u64) -> (r: u128)
    ensures
        r == as_double(bytes as nat),
        r <= 0x1_0000_0000_0000_0000 + 0x1000,
{
    let mut s: u64 = 1;
    let mut m: u64 = bytes;
    while m >= 0x20_0000_0000_0000
        invariant
            s > 0,
            s < 0x1000,
            m == bytes as nat / s as nat,
            s * scale(m as nat) == scale(bytes as nat),
        decreases m,
    {
        proof {
            lemma_fundamental_div_mod(bytes as int, s as int);
            assert(s * m <= bytes);
            assert(s < 0x800) by (nonlinear_arith)
                requires
                    s * m <= bytes,
                    bytes < 0x1_0000_0000_0000_0000,
                    m >= 0x20_0000_0000_0000,
                    s > 0,
            ;
            lemma_div_denominator(bytes as int, s as int, 2);
            assert(scale(m as nat) == 2 * scale((m / 2) as nat));
            assert(s * (2 * scale((m / 2) as nat)) == (s * 2) * scale((m / 2) as nat)) by (nonlinear_arith);
        }
        m = m / 2;
        s = s * 2;
    }
    assert(scale(m as nat) == 1);
    assert(s == scale(bytes as nat)) by (nonlinear_arith)
        requires
            s * scale(m as nat) == scale(bytes as nat),
            scale(m as nat) == 1,
    ;
    let r: u64 = bytes % s;
    proof {
        lemma_fundamental_div_mod(bytes as int, s as int);
        assert(m * s <= bytes) by (nonlinear_arith)
            requires
                m == bytes as nat / s as nat,
                bytes == s * (bytes as nat / s as nat) + bytes % s,
                bytes % s >= 0,
        ;
    }
    let q: u128 = if 2 * (r as u128) > s as u128 || (2 * (r as u128) == s as u128 && m % 2 == 1) {
        m as u128 + 1
    } else {
        m as u128
    };
    assert(q == div_round_even(bytes as nat, s as nat));
    assert(q * s <= 0x1_0000_0000_0000_0000 + 0x1000) by (nonlinear_arith)
        requires
            q <= m + 1,
            m * s <= bytes,
            bytes < 0x1_0000_0000_0000_0000,
            s < 0x1000,
    ;
    q * (s as u128)
}

/// How `bytes` reads to a person: `"512 B"`, `"1.50 MB"`.
pub fn format_bytes(bytes: u64) -> (r: String)
    ensures
        r@ == spec_format_bytes(bytes as nat),
{
    let v = nearest_double(bytes);
    let mut unit: usize = 0;
    let mut div: u128 = 1;
    proof {
        lemma_pow1024_small(0);
    }
    while unit < 4 && v >= div * 1024
        invariant
            unit <= 4,
            div == pow1024(unit as nat),
            div <= 0x100_0000_0000,
            unit_of(v as nat, 0) == unit_of(v as nat, unit as nat),
        decreases 4 - unit,
    {
        proof {
            lemma_pow1024_small(unit as nat);
        }
        div = div * 1024;
        unit = unit + 1;
    }
    proof {
        lemma_pow1024_small(unit as nat);
    }
    let mut out = String::new();
    if unit == 0 {
        push_decimal(&mut out, bytes as u128);
        out.append(" B");
        return out;
    }
    let a: u128 = v * 100;
    let q: u128 = a / div;
    let rem: u128 = a % div;
    let h: u128 = if 2 * rem > div || (2 * rem == div && q % 2 == 1) {
        q + 1
    } else {
        q
    };
    assert(h == div_round_even(v as nat * 100, pow1024(unit as nat)));
    let ghost start = out@;
    push_decimal(&mut out, h / 100);
    out.push('.');
    out.push(digit_of(h % 100 / 10));
    out.push(digit_of(h % 10));
    out.push(' ');
    out.append(unit_name_of(unit));
    assert(out@ =~= spec_format_bytes(bytes as nat));
    out
}

/// Below a kilobyte a size is the exact byte count: `"512 B"`.
pub proof fn lemma_small_sizes_in_bytes(bytes: nat)
    requires
        bytes < 1024,
    ensures
        spec_format_bytes(bytes) == decimal(bytes) + " B"@,
{
    assert(scale(bytes) == 1);
    assert(as_double(bytes) == bytes);
    assert(pow1024(0) == 1);
    assert(unit_of(bytes, 0) == 0);
}

/// Every count below 2^53 bytes is converted exactly, so a size is off only
/// by the rounding of its last printed digit.
pub proof fn lemma_exact_below_two_to_the_53(bytes: nat)
    requires
        bytes < 0x20_0000_0000_0000,
    ensures
        as_double(bytes) == bytes,
{
    assert(scale(bytes) == 1);
}

} // verus!
