//! Human-readable rendering of sizes counted in kilobytes.
use vstd::arithmetic::div_mod::{lemma_fundamental_div_mod, lemma_fundamental_div_mod_converse};
use vstd::prelude::*;

verus! {

/// The largest unit index: `YB`.
pub const LAST_UNIT: usize = 7;

/// `1024` raised to the power `k`.
pub open spec fn pow1024(k: nat) -> nat
    decreases k,
{
    if k == 0 {
        1
    } else {
        1024 * pow1024((k - 1) as nat)
    }
}

/// Index of the unit used for `size`, looking from unit `k` upwards: the first unit at
/// which the scaled value is below 1024, or the last unit.
pub open spec fn unit_from(size: nat, k: nat) -> nat
    decreases LAST_UNIT - k,
{
    if k >= LAST_UNIT || size < pow1024(k + 1) {
        k
    } else {
        unit_from(size, k + 1)
    }
}

/// Index into `KB, MB, GB, TB, PB, EB, ZB, YB` of the unit used for `size`.
pub open spec fn unit_index(size: nat) -> nat {
    unit_from(size, 0)
}

/// The name of unit `k`.
pub open spec fn unit_name(k: nat) -> Seq<char> {
    let first = seq!['K', 'M', 'G', 'T', 'P', 'E', 'Z', 'Y'];
    seq![first[k as int], 'B']
}

/// `n / d` rounded to the nearest integer, ties to the even one.
pub open spec fn div_round_even(n: nat, d: nat) -> nat
    recommends
        d > 0,
{
    let q = n / d;
    let r = n % d;
    if 2 * r > d || (2 * r == d && q % 2 == 1) {
        q + 1
    } else {
        q
    }
}

/// The scaled value of `size`, in hundredths of its unit, rounded half to even.
pub open spec fn hundredths(size: nat) -> nat {
    div_round_even(size * 100, pow1024(unit_index(size)))
}

/// The decimal digit for `d < 10`.
pub open spec fn digit_char(d: nat) -> char {
    seq!['0', '1', '2', '3', '4', '5', '6', '7', '8', '9'][d as int]
}

/// Decimal notation of `n`, without leading zeros.
pub open spec fn decimal(n: nat) -> Seq<char>
    decreases n,
{
    if n < 10 {
        seq![digit_char(n)]
    } else {
        decimal(n / 10).push(digit_char(n % 10))
    }
}

/// `size` in its unit, with exactly two decimals, followed by the unit's name.
pub open spec fn size_text(size: nat) -> Seq<char> {
    let h = hundredths(size);
    decimal(h / 100) + seq!['.', digit_char((h % 100) / 10), digit_char(h % 10)] + unit_name(
        unit_index(size),
    )
}

/// The unit chosen for any size is one of the table: the largest sizes stay in `YB`.
pub proof fn lemma_unit_in_table(size: nat)
    ensures
        unit_index(size) <= LAST_UNIT,
        size >= pow1024(LAST_UNIT as nat) ==> unit_index(size) == LAST_UNIT,
{
    lemma_unit_from_bounds(size, 0);
}

proof fn lemma_unit_from_bounds(size: nat, k: nat)
    requires
        k <= LAST_UNIT,
    ensures
        k <= unit_from(size, k) <= LAST_UNIT,
        size >= pow1024(LAST_UNIT as nat) ==> unit_from(size, k) == LAST_UNIT,
    decreases LAST_UNIT - k,
{
    if k < LAST_UNIT {
        lemma_pow1024_monotone(k + 1, LAST_UNIT as nat);
        if size >= pow1024(k + 1) {
            lemma_unit_from_bounds(size, k + 1);
        }
    }
}

proof fn lemma_pow1024_monotone(a: nat, b: nat)
    requires
        a <= b,
    ensures
        pow1024(a) <= pow1024(b),
    decreases b - a,
{
    if a < b {
        lemma_pow1024_monotone(a, (b - 1) as nat);
    }
}

proof fn lemma_pow1024_bounds(k: nat)
    requires
        k <= LAST_UNIT,
    ensures
        1 <= pow1024(k) <= 0x400000000000000000000,
        k >= 1 ==> pow1024(k) >= 1024,
    decreases k,
{
    reveal_with_fuel(pow1024, 8);
    if k > 0 {
        lemma_pow1024_bounds((k - 1) as nat);
    }
}

/// Splitting `size * 100 / d` into the whole part `size / d` and the hundredths of
/// the remainder.
proof fn lemma_scaled_split(size: nat, d: nat)
    requires
        d > 0,
    ensures
        (size * 100) / d == (size / d) * 100 + ((size % d) * 100) / d,
        (size * 100) % d == ((size % d) * 100) % d,
        ((size % d) * 100) / d < 100,
{
    let q = size / d;
    let r = size % d;
    lemma_fundamental_div_mod(size as int, d as int);
    lemma_fundamental_div_mod((r * 100) as int, d as int);
    let f = (r * 100) / d;
    let rem = (r * 100) % d;
    assert(size * 100 == (q * 100 + f) * d + rem) by (nonlinear_arith)
        requires
            size == d * q + r,
            r * 100 == d * f + rem,
    ;
    lemma_fundamental_div_mod_converse((size * 100) as int, d as int, (q * 100 + f) as int, rem as int);
    assert(f < 100) by (nonlinear_arith)
        requires
            r < d,
            r * 100 == d * f + rem,
            rem >= 0,
    ;
}

/// Appends the digit `d` to `s`.
fn push_digit(s: &mut String, d: u128)
    requires
        d < 10,
    ensures
        final(s)@ == old(s)@.push(digit_char(d as nat)),
{
    let digits = "0123456789";
    proof {
        reveal_strlit("0123456789");
    }
    let one = digits.substring_char(d as usize, d as usize + 1);
    s.append(one);
    assert(final(s)@ =~= old(s)@.push(digit_char(d as nat)));
}

/// Appends the decimal notation of `n` to `s`.
fn push_decimal(s: &mut String, n: u128)
    ensures
        final(s)@ == old(s)@ + decimal(n as nat),
    decreases n,
{
    if n >= 10 {
        push_decimal(s, n / 10);
    }
    push_digit(s, n % 10);
    proof {
        if n >= 10 {
            assert(final(s)@ =~= old(s)@ + decimal(n as nat));
        } else {
            assert(final(s)@ =~= old(s)@ + decimal(n as nat));
        }
    }
}

/// Appends the name of unit `k` to `s`.
fn push_unit(s: &mut String, k: usize)
    requires
        k <= LAST_UNIT,
    ensures
        final(s)@ == old(s)@ + unit_name(k as nat),
{
    let letters = "KMGTPEZY";
    let b = "B";
    proof {
        reveal_strlit("KMGTPEZY");
        reveal_strlit("B");
    }
    let one = letters.substring_char(k, k + 1);
    s.append(one);
    s.append(b);
    assert(final(s)@ =~= old(s)@ + unit_name(k as nat));
}

/// Renders a size counted in kilobytes: the size is divided by 1024 until it is below
/// 1024 or the unit is `YB`, and shown with two decimals (rounded half to even) and
/// the unit, as in `"1.50MB"`.
pub fn format_size(size: u128) -> (r: String)
    ensures
        r@ == size_text(size as nat),
{
    let mut k: usize = 0;
    let mut d: u128 = 1;
    proof {
        reveal_with_fuel(pow1024, 2);
    }
    while k < LAST_UNIT && size / 1024 >= d
        invariant
            k <= LAST_UNIT,
            d == pow1024(k as nat),
            unit_from(size as nat, k as nat) == unit_index(size as nat),
        decreases LAST_UNIT - k,
    {
        proof {
            lemma_pow1024_bounds(k as nat);
            lemma_pow1024_bounds((k + 1) as nat);
            assert(pow1024((k + 1) as nat) == 1024 * d);
            assert(size / 1024 >= d ==> size >= 1024 * d) by (nonlinear_arith);
        }
        d = d * 1024;
        k = k + 1;
    }
    proof {
        lemma_pow1024_bounds(k as nat);
        if k < LAST_UNIT {
            lemma_pow1024_bounds((k + 1) as nat);
            assert(pow1024((k + 1) as nat) == 1024 * d);
            assert(size < 1024 * d) by (nonlinear_arith)
                requires
                    !(size / 1024 >= d),
            ;
        }
        assert(unit_index(size as nat) == k);
        lemma_scaled_split(size as nat, d as nat);
        lemma_fundamental_div_mod(size as int, d as int);
        assert(size % d < d);
        assert((size % d) * 100 < d * 100) by (nonlinear_arith)
            requires
                size % d < d,
        ;
        if k == 0 {
            assert(size < 1024 * d);
            assert(size / d == size);
        } else {
            assert(size / d <= size / 1024) by {
                vstd::arithmetic::div_mod::lemma_div_is_ordered_by_denominator(size as int, 1024, d as int);
            }
        }
    }
    let q = size / d;
    let r = size % d;
    let f = r * 100 / d;
    let rem = r * 100 % d;
    let up = rem * 2 > d || (rem * 2 == d && f % 2 == 1);
    let (whole, frac) = if !up {
        (q, f)
    } else if f == 99 {
        (q + 1, 0)
    } else {
        (q, f + 1)
    };
    proof {
        let n = (size * 100) as nat;
        let h = hundredths(size as nat);
        assert((q * 100 + f) % 2 == f % 2) by (nonlinear_arith);
        assert(h == q * 100 + f + (if up { 1int } else { 0int }));
        assert(whole == h / 100 && frac == h % 100) by (nonlinear_arith)
            requires
                f < 100,
                h == q * 100 + f + (if up { 1int } else { 0int }),
                whole == (if up && f == 99 { q + 1 } else { q as int }),
                frac == (if !up { f as int } else if f == 99 { 0 } else { f + 1 }),
        ;
        assert(h % 10 == frac % 10) by (nonlinear_arith)
            requires
                frac == h % 100,
        ;
    }
    let mut out = String::new();
    push_decimal(&mut out, whole);
    out.append(".");
    push_digit(&mut out, frac / 10);
    push_digit(&mut out, frac % 10);
    push_unit(&mut out, k);
    proof {
        reveal_strlit(".");
        assert(out@ =~= size_text(size as nat));
    }
    out
}

} // verus!
