//! Double-precision numbers, held as the integers that they are in a small
//! enough unit, and how quotients of them are shown.

use vstd::arithmetic::power::{lemma_pow_adds, lemma_pow_positive, pow};
use vstd::prelude::*;

verus! {

/// One more than the largest significand of a double-precision number.
pub const SIGNIFICANDS: u128 = 0x20_0000_0000_0000;

/// `value` over `unit`, rounded to the nearest number; halfway, to the even
/// one.
pub open spec fn nearest(value: int, unit: int) -> int {
    let quotient = value / unit;
    let rest = value % unit;
    if 2 * rest > unit || 2 * rest == unit && quotient % 2 == 1 {
        quotient + 1
    } else {
        quotient
    }
}

/// From `unit` on the first of its doublings in which `value` has no more than
/// 53 significant bits.
pub open spec fn double_unit(value: int, unit: int) -> int
    decreases value / unit,
{
    if unit <= 0 || value / unit < SIGNIFICANDS {
        unit
    } else {
        proof {
            lemma_halved(value, unit);
        }
        double_unit(value, 2 * unit)
    }
}

/// The number nearest to `value` that has 53 significant bits when it is
/// counted in a doubling of `unit`.
pub open spec fn as_double(value: int, unit: int) -> int {
    nearest(value, double_unit(value, unit)) * double_unit(value, unit)
}

pub proof fn lemma_halved(value: int, unit: int)
    requires
        unit > 0,
        value / unit >= 1,
    ensures
        0 <= value / (2 * unit) < value / unit,
        value / (2 * unit) == (value / unit) / 2,
{
    vstd::arithmetic::div_mod::lemma_fundamental_div_mod(value, unit);
    assert(value >= 0) by (nonlinear_arith)
        requires
            unit > 0,
            value / unit >= 1,
            value == unit * (value / unit) + value % unit,
            value % unit >= 0,
    ;
    vstd::arithmetic::div_mod::lemma_div_denominator(value, unit, 2);
}

proof fn lemma_double_unit(value: int, unit: int)
    requires
        value >= 0,
        unit > 0,
    ensures
        double_unit(value, unit) >= unit,
        value / double_unit(value, unit) < SIGNIFICANDS,
        double_unit(value, unit) > unit ==> value / double_unit(value, unit) >= SIGNIFICANDS / 2,
    decreases value / unit,
{
    if value / unit >= SIGNIFICANDS {
        lemma_halved(value, unit);
        lemma_double_unit(value, 2 * unit);
    }
}

proof fn lemma_nearest(value: int, unit: int)
    requires
        unit > 0,
    ensures
        value / unit <= nearest(value, unit) <= value / unit + 1,
        2 * value - unit <= 2 * (nearest(value, unit) * unit) <= 2 * value + unit,
{
    vstd::arithmetic::div_mod::lemma_fundamental_div_mod(value, unit);
    let quotient = value / unit;
    assert((quotient + 1) * unit == unit * quotient + unit) by (nonlinear_arith);
    assert(quotient * unit == unit * quotient) by (nonlinear_arith);
}

/// Rounding is off by at most half the unit that it took, and that unit is the
/// first or small beside the value.
proof fn lemma_double_error(value: int, unit: int)
    requires
        value >= 0,
        unit > 0,
    ensures
        ({
            let step = double_unit(value, unit);
            &&& 2 * value - step <= 2 * as_double(value, unit) <= 2 * value + step
            &&& step == unit || 0x10_0000_0000_0000 * step <= value
        }),
{
    let step = double_unit(value, unit);
    lemma_double_unit(value, unit);
    lemma_nearest(value, step);
    vstd::arithmetic::div_mod::lemma_fundamental_div_mod(value, step);
    if step > unit {
        let quotient = value / step;
        assert(0x10_0000_0000_0000 * step <= step * quotient) by (nonlinear_arith)
            requires
                quotient >= 0x10_0000_0000_0000,
                step > 0,
        ;
    }
}

proof fn lemma_double_at_least(value: int, unit: int)
    requires
        unit > 0,
        value / unit >= SIGNIFICANDS,
    ensures
        as_double(value, unit) >= SIGNIFICANDS * unit,
        as_double(value, unit) == as_double(value, 2 * unit),
{
    lemma_halved(value, unit);
    vstd::arithmetic::div_mod::lemma_fundamental_div_mod(value, unit);
    assert(value >= 0) by (nonlinear_arith)
        requires
            value == unit * (value / unit) + value % unit,
            value % unit >= 0,
            value / unit >= 0,
            unit > 0,
    ;
    let step = double_unit(value, 2 * unit);
    lemma_double_unit(value, 2 * unit);
    lemma_nearest(value, step);
    let rounded = nearest(value, step);
    assert(rounded * step >= SIGNIFICANDS * unit) by (nonlinear_arith)
        requires
            rounded >= SIGNIFICANDS / 2,
            step >= 2 * unit,
            unit > 0,
            SIGNIFICANDS % 2 == 0,
    ;
}

proof fn lemma_nearest_ordered(x: int, y: int, unit: int)
    requires
        0 <= x <= y,
        unit > 0,
    ensures
        nearest(x, unit) <= nearest(y, unit),
{
    vstd::arithmetic::div_mod::lemma_div_is_ordered(x, y, unit);
    lemma_nearest(x, unit);
    lemma_nearest(y, unit);
    if x / unit == y / unit {
        vstd::arithmetic::div_mod::lemma_fundamental_div_mod(x, unit);
        vstd::arithmetic::div_mod::lemma_fundamental_div_mod(y, unit);
    }
}

/// Rounding keeps the order.
pub proof fn law_rounding_keeps_order(x: int, y: int, unit: int)
    requires
        0 <= x <= y,
        unit > 0,
    ensures
        as_double(x, unit) <= as_double(y, unit),
    decreases y / unit,
{
    vstd::arithmetic::div_mod::lemma_div_is_ordered(x, y, unit);
    if y / unit < SIGNIFICANDS {
        lemma_nearest_ordered(x, y, unit);
        let a = nearest(x, unit);
        let b = nearest(y, unit);
        assert(a * unit <= b * unit) by (nonlinear_arith)
            requires
                a <= b,
                unit > 0,
        ;
    } else {
        lemma_double_at_least(y, unit);
        lemma_halved(y, unit);
        if x / unit < SIGNIFICANDS {
            lemma_nearest(x, unit);
            let a = nearest(x, unit);
            assert(a * unit <= SIGNIFICANDS * unit) by (nonlinear_arith)
                requires
                    a <= SIGNIFICANDS,
                    unit > 0,
            ;
        } else {
            lemma_double_at_least(x, unit);
            law_rounding_keeps_order(x, y, 2 * unit);
        }
    }
}

/// A rounded number is not rounded again.
pub proof fn law_rounding_is_idempotent(value: int, unit: int)
    requires
        value >= 0,
        unit > 0,
    ensures
        as_double(as_double(value, unit), unit) == as_double(value, unit),
    decreases value / unit,
{
    if value / unit < SIGNIFICANDS {
        lemma_nearest(value, unit);
        let rounded = nearest(value, unit);
        let whole = rounded * unit;
        assert(rounded >= 0) by {
            vstd::arithmetic::div_mod::lemma_div_pos_is_pos(value, unit);
        }
        vstd::arithmetic::div_mod::lemma_div_multiples_vanish(rounded, unit);
        vstd::arithmetic::div_mod::lemma_mod_multiples_basic(rounded, unit);
        assert(unit * rounded == whole) by (nonlinear_arith)
            requires
                whole == rounded * unit,
        ;
        if rounded == SIGNIFICANDS {
            let half: int = SIGNIFICANDS as int / 2;
            lemma_halved(whole, unit);
            vstd::arithmetic::div_mod::lemma_mod_multiples_basic(half, 2 * unit);
            assert(half * (2 * unit) == whole) by (nonlinear_arith)
                requires
                    whole == rounded * unit,
                    rounded == 2 * half,
            ;
            assert(whole / (2 * unit) == half);
            assert(whole % (2 * unit) == 0);
            assert(double_unit(whole, 2 * unit) == 2 * unit);
            assert(double_unit(whole, unit) == 2 * unit);
        }
    } else {
        lemma_halved(value, unit);
        lemma_double_at_least(value, unit);
        law_rounding_is_idempotent(value, 2 * unit);
        let rounded = as_double(value, unit);
        assert(rounded / unit >= SIGNIFICANDS) by {
            vstd::arithmetic::div_mod::lemma_div_is_ordered(
                SIGNIFICANDS * unit,
                rounded,
                unit,
            );
            vstd::arithmetic::div_mod::lemma_div_multiples_vanish(SIGNIFICANDS as int, unit);
            assert(unit * SIGNIFICANDS == SIGNIFICANDS * unit) by (nonlinear_arith);
        }
        lemma_double_at_least(rounded, unit);
    }
}

/// `value` over `unit`, rounded to the nearest number.
pub fn round_nearest(value: u128, unit: u128) -> (res: u128)
    requires
        unit > 0,
        unit <= 0x100_0000_0000_0000_0000_0000,
        value <= 0x4000_0000_0000_0000_0000_0000_0000_0000,
    ensures
        res == nearest(value as int, unit as int),
        res <= value / unit + 1,
{
    let quotient: u128 = value / unit;
    let rest: u128 = value % unit;
    if 2 * rest > unit || 2 * rest == unit && quotient % 2 == 1 {
        quotient + 1
    } else {
        quotient
    }
}

/// The double-precision number nearest to `value`, counted in doublings of
/// `unit`.
pub fn round_double(value: u128, unit: u128) -> (res: u128)
    requires
        0 < unit <= 0x10_0000,
        value <= 0x2000_0000_0000_0000_0000_0000_0000_0000,
    ensures
        res == as_double(value as int, unit as int),
        res <= 2 * value + unit,
{
    let mut step: u128 = unit;
    while value / step >= SIGNIFICANDS
        invariant
            value <= 0x2000_0000_0000_0000_0000_0000_0000_0000,
            0 < unit <= step <= 0x100_0000_0000_0000_0000_0000,
            double_unit(value as int, unit as int) == double_unit(value as int, step as int),
        decreases value / step,
    {
        proof {
            lemma_halved(value as int, step as int);
            assert(step <= 0x100_0000_0000_0000_0000) by (nonlinear_arith)
                requires
                    value / step >= 0x20_0000_0000_0000,
                    value <= 0x2000_0000_0000_0000_0000_0000_0000_0000,
                    step >= 1,
            ;
        }
        step = 2 * step;
    }
    let rounded: u128 = round_nearest(value, step);
    proof {
        lemma_double_error(value as int, unit as int);
        assert(rounded * step == as_double(value as int, unit as int));
        assert(step <= value || step == unit);
    }
    rounded * step
}

// ---------------------------------------------------------------------------
// Quotients as decimal fractions
// ---------------------------------------------------------------------------

/// How many parts a count is cut into, so that every count within a factor of
/// two of `n` has more than 53 significant bits.
pub open spec fn fineness(n: int) -> int {
    if n < 0x1_0000_0000 {
        0x100_0000_0000_0000_0000_0000
    } else {
        0x100_0000_0000_0000
    }
}

/// `n` divided by `unit` in double precision: both `n` and the quotient are
/// rounded. In parts of a count, of which `unit` make one.
pub open spec fn quotient(n: int, unit: int) -> int {
    as_double(as_double(n, 1) * fineness(n), unit)
}

/// So many counts, written as a fraction, read as the quotient.
pub open spec fn reads(count: int, n: int, unit: int) -> bool {
    as_double(count * fineness(n), unit) == quotient(n, unit)
}

/// The multiple of `power` that reads as the quotient: of the two around it the
/// nearer one, halfway the upper one.
pub open spec fn closest(n: int, unit: int, power: int) -> Option<int> {
    let step = power * fineness(n);
    let below = quotient(n, unit) / step * power;
    let above = below + power;
    if reads(below, n, unit) && (!reads(above, n, unit) || 2 * (quotient(n, unit) % step) < step) {
        Some(below)
    } else if reads(above, n, unit) {
        Some(above)
    } else {
        None
    }
}

/// From `power` on, the count that reads as the quotient with the most zeros at
/// its end.
pub open spec fn shortest(n: int, unit: int, power: int) -> int
    decreases
            if power > n {
                0
            } else {
                n - power + 1
            },
{
    if 1 <= power <= n && closest(n, unit, 10 * power) is Some {
        shortest(n, unit, 10 * power)
    } else {
        closest(n, unit, power)->0
    }
}

/// How many counts are shown for `n` of them when they are divided by `unit`
/// in double precision: the quotient is written with as few digits as read
/// back as it.
pub open spec fn shown(n: int, unit: int) -> int {
    shortest(n, unit, 1)
}

proof fn lemma_quotient(n: int, unit: int)
    requires
        0 <= n <= u64::MAX,
        0 < unit <= 0x10_0000,
    ensures
        as_double(n, 1) >= 0,
        0 <= quotient(n, unit),
        n > 0 ==> as_double(n, 1) > 0,
        2 * as_double(n, 1) <= 3 * n,
        2 * quotient(n, unit) <= 3 * (as_double(n, 1) * fineness(n)) + unit,
        as_double(quotient(n, unit), unit) == quotient(n, unit),
{
    lemma_double_error(n, 1);
    let value = as_double(n, 1) * fineness(n);
    assert(as_double(n, 1) >= 0);
    assert(value >= 0) by (nonlinear_arith)
        requires
            value == as_double(n, 1) * fineness(n),
            as_double(n, 1) >= 0,
            fineness(n) > 0,
    ;
    lemma_double_error(value, unit);
    law_rounding_is_idempotent(value, unit);
}

/// Where some multiple of `power` reads as the quotient, one of the two around
/// it does.
proof fn lemma_around(n: int, unit: int, power: int, count: int)
    requires
        0 <= n <= u64::MAX,
        0 < unit <= 0x10_0000,
        power > 0,
        count >= 0,
        count % power == 0,
        reads(count, n, unit),
    ensures
        closest(n, unit, power) is Some,
{
    let fine = fineness(n);
    let q = quotient(n, unit);
    let step = power * fine;
    let at = q / step;
    let below = at * power;
    let above = below + power;
    let of = count / power;
    lemma_quotient(n, unit);
    assert(step > 0) by (nonlinear_arith)
        requires
            step == power * fine,
            power > 0,
            fine > 0,
    ;
    vstd::arithmetic::div_mod::lemma_fundamental_div_mod(q, step);
    vstd::arithmetic::div_mod::lemma_fundamental_div_mod(count, power);
    vstd::arithmetic::div_mod::lemma_div_pos_is_pos(q, step);
    assert(below * fine == step * at) by (nonlinear_arith)
        requires
            below == at * power,
            step == power * fine,
    ;
    assert(above * fine == step * at + step) by (nonlinear_arith)
        requires
            above == at * power + power,
            step == power * fine,
    ;
    assert(count * fine == step * of) by (nonlinear_arith)
        requires
            count == power * of,
            step == power * fine,
    ;
    if of <= at {
        assert(0 <= step * of <= step * at) by (nonlinear_arith)
            requires
                0 <= of <= at,
                step > 0,
        ;
        law_rounding_keeps_order(count * fine, below * fine, unit);
        law_rounding_keeps_order(below * fine, q, unit);
    } else {
        assert(step * at + step <= step * of) by (nonlinear_arith)
            requires
                at + 1 <= of,
                step > 0,
        ;
        law_rounding_keeps_order(above * fine, count * fine, unit);
        law_rounding_keeps_order(q, above * fine, unit);
    }
}

proof fn lemma_closest(n: int, unit: int, power: int)
    requires
        0 <= n <= u64::MAX,
        0 < unit <= 0x10_0000,
        power > 0,
        closest(n, unit, power) is Some,
    ensures
        closest(n, unit, power)->0 >= 0,
        closest(n, unit, power)->0 % power == 0,
        reads(closest(n, unit, power)->0, n, unit),
{
    let step = power * fineness(n);
    let at = quotient(n, unit) / step;
    lemma_quotient(n, unit);
    assert(step > 0) by (nonlinear_arith)
        requires
            step == power * fineness(n),
            power > 0,
            fineness(n) > 0,
    ;
    vstd::arithmetic::div_mod::lemma_div_pos_is_pos(quotient(n, unit), step);
    assert(at * power >= 0) by (nonlinear_arith)
        requires
            at >= 0,
            power > 0,
    ;
    vstd::arithmetic::div_mod::lemma_mod_multiples_basic(at, power);
    vstd::arithmetic::div_mod::lemma_mod_multiples_basic(at + 1, power);
    assert((at + 1) * power == at * power + power) by (nonlinear_arith);
}

proof fn lemma_shortest(n: int, unit: int, power: int)
    requires
        0 <= n <= u64::MAX,
        0 < unit <= 0x10_0000,
        power > 0,
        closest(n, unit, power) is Some,
    ensures
        shortest(n, unit, power) >= 0,
        reads(shortest(n, unit, power), n, unit),
    decreases
            if power > n {
                0
            } else {
                n - power + 1
            },
{
    if power <= n && closest(n, unit, 10 * power) is Some {
        lemma_shortest(n, unit, 10 * power);
    } else {
        lemma_closest(n, unit, power);
    }
}

proof fn lemma_counts_read(n: int, unit: int)
    requires
        0 <= n <= u64::MAX,
        0 < unit <= 0x10_0000,
    ensures
        closest(n, unit, 1) is Some,
{
    lemma_quotient(n, unit);
    lemma_around(n, unit, 1, as_double(n, 1));
}

/// What is shown reads back as the quotient.
pub proof fn law_shown_reads_back(n: int, unit: int)
    requires
        0 <= n <= u64::MAX,
        0 < unit <= 0x10_0000,
    ensures
        shown(n, unit) >= 0,
        reads(shown(n, unit), n, unit),
{
    lemma_counts_read(n, unit);
    lemma_shortest(n, unit, 1);
}

proof fn lemma_tens(k: nat, n: int, unit: int, power: int, i: nat, count: int)
    requires
        0 < n <= u64::MAX,
        0 < unit <= 0x10_0000,
        power == pow(10, i),
        closest(n, unit, power) is Some,
        count >= 0,
        count % pow(10, k) == 0,
        reads(count, n, unit),
    ensures
        shortest(n, unit, power) % pow(10, k) == 0,
    decreases
            if power > n {
                0
            } else {
                n - power + 1
            },
{
    lemma_pow_positive(10, i);
    lemma_pow_positive(10, k);
    if k <= i {
        lemma_shortest_keeps(n, unit, power);
        lemma_pow_adds(10, k, (i - k) as nat);
        lemma_pow_positive(10, (i - k) as nat);
        lemma_divides(shortest(n, unit, power), pow(10, k), pow(10, (i - k) as nat));
    } else {
        lemma_pow_adds(10, i + 1, (k - i - 1) as nat);
        lemma_pow_positive(10, (k - i - 1) as nat);
        reveal(pow);
        assert(pow(10, i + 1) == 10 * power);
        lemma_divides(count, 10 * power, pow(10, (k - i - 1) as nat));
        lemma_around(n, unit, 10 * power, count);
        assert(power <= n) by {
            if power > n {
                lemma_too_many(n, unit, count, 10 * power);
            }
        }
        lemma_tens(k, n, unit, 10 * power, i + 1, count);
    }
}

proof fn lemma_divides(value: int, a: int, b: int)
    requires
        a > 0,
        b > 0,
        value % (a * b) == 0,
    ensures
        value % a == 0,
{
    assert(a * b > 0) by (nonlinear_arith)
        requires
            a > 0,
            b > 0,
    ;
    vstd::arithmetic::div_mod::lemma_fundamental_div_mod(value, a * b);
    let of = value / (a * b);
    assert(value == (of * b) * a) by (nonlinear_arith)
        requires
            value == (a * b) * of,
    ;
    vstd::arithmetic::div_mod::lemma_mod_multiples_basic(of * b, a);
}

proof fn lemma_shortest_keeps(n: int, unit: int, power: int)
    requires
        0 <= n <= u64::MAX,
        0 < unit <= 0x10_0000,
        power > 0,
        closest(n, unit, power) is Some,
    ensures
        shortest(n, unit, power) % power == 0,
    decreases
            if power > n {
                0
            } else {
                n - power + 1
            },
{
    if power <= n && closest(n, unit, 10 * power) is Some {
        lemma_shortest_keeps(n, unit, 10 * power);
        assert(10 * power == power * 10);
        lemma_divides(shortest(n, unit, 10 * power), power, 10);
    } else {
        lemma_closest(n, unit, power);
    }
}

/// No multiple of a power beyond ten times `n` reads as the quotient.
proof fn lemma_too_many(n: int, unit: int, count: int, power: int)
    requires
        0 < n <= u64::MAX,
        0 < unit <= 0x10_0000,
        power > 10 * n,
        count >= 0,
        count % power == 0,
    ensures
        !reads(count, n, unit),
{
    let fine = fineness(n);
    let value = count * fine;
    lemma_quotient(n, unit);
    let a = as_double(n, 1);
    if count == 0 {
        lemma_quotient_positive(n, unit);
        vstd::arithmetic::div_mod::lemma_small_mod(0, unit as nat);
        vstd::arithmetic::div_mod::lemma_basic_div(0, unit);
        assert(double_unit(0, unit) == unit);
        assert(nearest(0, unit) == 0);
        assert(0 * unit == 0);
        assert(0 * fine == 0);
    } else {
        assert(count >= power) by {
            if count < power {
                vstd::arithmetic::div_mod::lemma_small_mod(count as nat, power as nat);
            }
        }
        assert(value >= 10 * (n * fine)) by (nonlinear_arith)
            requires
                value == count * fine,
                count >= 10 * n,
                fine > 0,
        ;
        assert(2 * (a * fine) <= 3 * (n * fine)) by (nonlinear_arith)
            requires
                2 * a <= 3 * n,
                fine > 0,
        ;
        assert(n * fine >= fine) by (nonlinear_arith)
            requires
                n >= 1,
                fine > 0,
        ;
        lemma_double_error(value, unit);
    }
}

proof fn lemma_quotient_positive(n: int, unit: int)
    requires
        0 < n <= u64::MAX,
        0 < unit <= 0x10_0000,
    ensures
        quotient(n, unit) > 0,
{
    lemma_quotient(n, unit);
    let value = as_double(n, 1) * fineness(n);
    assert(value >= fineness(n)) by (nonlinear_arith)
        requires
            value == as_double(n, 1) * fineness(n),
            as_double(n, 1) >= 1,
            fineness(n) > 0,
    ;
    lemma_double_error(value, unit);
}

/// No fraction with fewer digits reads back as the quotient: a power of ten
/// that divides some count that does divides the count that is shown.
pub proof fn law_shown_is_shortest(n: int, unit: int, k: nat, count: int)
    requires
        0 <= n <= u64::MAX,
        0 < unit <= 0x10_0000,
        count >= 0,
        count % pow(10, k) == 0,
        reads(count, n, unit),
    ensures
        shown(n, unit) % pow(10, k) == 0,
{
    lemma_pow_positive(10, k);
    lemma_counts_read(n, unit);
    if n == 0 {
        law_small_counts_are_exact(0, unit);
        vstd::arithmetic::div_mod::lemma_small_mod(0, pow(10, k) as nat);
    } else {
        reveal(pow);
        assert(pow(10, 0) == 1);
        lemma_tens(k, n, unit, 1, 0, count);
    }
}

/// Up to 2^51 of them, all counts are shown exactly.
pub proof fn law_small_counts_are_exact(n: int, unit: int)
    requires
        0 <= n <= 0x8_0000_0000_0000,
        0 < unit <= 0x10_0000,
    ensures
        shown(n, unit) == n,
{
    let fine = fineness(n);
    let value = n * fine;
    let count = shown(n, unit);
    assert(n / 1 == n && n % 1 == 0);
    assert(double_unit(n, 1) == 1);
    assert(as_double(n, 1) == n);
    law_shown_reads_back(n, unit);
    assert(0 <= value <= 0x8_0000_0000_0000 * fine) by (nonlinear_arith)
        requires
            value == n * fine,
            0 <= n <= 0x8_0000_0000_0000,
            fine > 0,
    ;
    lemma_double_error(value, unit);
    if count < n {
        let lower = (n - 1) * fine;
        assert(lower == value - fine) by (nonlinear_arith)
            requires
                lower == (n - 1) * fine,
                value == n * fine,
        ;
        assert(0 <= count * fine <= lower) by (nonlinear_arith)
            requires
                0 <= count <= n - 1,
                lower == (n - 1) * fine,
                fine > 0,
        ;
        law_rounding_keeps_order(count * fine, lower, unit);
        lemma_double_error(lower, unit);
    } else if count > n {
        let upper = (n + 1) * fine;
        assert(upper == value + fine) by (nonlinear_arith)
            requires
                upper == (n + 1) * fine,
                value == n * fine,
        ;
        assert(upper <= count * fine) by (nonlinear_arith)
            requires
                n + 1 <= count,
                upper == (n + 1) * fine,
                fine > 0,
        ;
        law_rounding_keeps_order(upper, count * fine, unit);
        lemma_double_error(upper, unit);
    }
}

fn find_closest(n: u64, unit: u64, parts: u128, fine: u128, power: u128) -> (res: Option<u128>)
    requires
        0 < unit <= 0x10_0000,
        parts == quotient(n as int, unit as int),
        fine == fineness(n as int),
        1 <= power <= 10 * n || power == 1,
    ensures
        match closest(n as int, unit as int, power as int) {
            Some(count) => res matches Some(found) && found == count,
            None => res is None,
        },
        res matches Some(found) ==> found <= 0x10_0000_0000_0000_0000,
{
    proof {
        lemma_candidates(n as int, unit as int, power as int);
    }
    let step: u128 = power * fine;
    let below: u128 = parts / step * power;
    let above: u128 = below + power;
    let under: bool = round_double(below * fine, unit as u128) == parts;
    let over: bool = round_double(above * fine, unit as u128) == parts;
    if under && (!over || 2 * (parts % step) < step) {
        Some(below)
    } else if over {
        Some(above)
    } else {
        None
    }
}

/// How many counts are shown for `n` of them.
pub fn count_shown(n: u64, unit: u64) -> (res: u128)
    requires
        0 < unit <= 0x10_0000,
    ensures
        res == shown(n as int, unit as int),
        res <= 0x10_0000_0000_0000_0000,
{
    let fine: u128 = if n < 0x1_0000_0000 {
        0x100_0000_0000_0000_0000_0000
    } else {
        0x100_0000_0000_0000
    };
    proof {
        lemma_quotient(n as int, unit as int);
        lemma_counts_read(n as int, unit as int);
        lemma_candidates(n as int, unit as int, 1);
    }
    let rounded: u128 = round_double(n as u128, 1);
    let parts: u128 = round_double(rounded * fine, unit as u128);
    let mut power: u128 = 1;
    let mut found: u128 = match find_closest(n, unit, parts, fine, 1) {
        Some(count) => count,
        None => 0,
    };
    while power <= n as u128
        invariant
            0 < unit <= 0x10_0000,
            parts == quotient(n as int, unit as int),
            fine == fineness(n as int),
            1 <= power <= 10 * n || power == 1,
            closest(n as int, unit as int, power as int) == Some(found as int),
            found <= 0x10_0000_0000_0000_0000,
            shown(n as int, unit as int) == shortest(n as int, unit as int, power as int),
        ensures
            found == shown(n as int, unit as int),
            found <= 0x10_0000_0000_0000_0000,
        decreases 11 * n - power,
    {
        match find_closest(n, unit, parts, fine, 10 * power) {
            Some(count) => {
                found = count;
                power = 10 * power;
            },
            None => {
                break;
            },
        }
    }
    found
}

proof fn lemma_candidates(n: int, unit: int, power: int)
    requires
        0 <= n <= u64::MAX,
        0 < unit <= 0x10_0000,
        1 <= power <= 10 * n || power == 1,
    ensures
        ({
            let fine = fineness(n);
            let step = power * fine;
            let below = quotient(n, unit) / step * power;
            &&& as_double(n, 1) * fine <= 0x2000_0000_0000_0000_0000_0000_0000_0000
            &&& quotient(n, unit) <= 0x2000_0000_0000_0000_0000_0000_0000_0000
            &&& 0 < step <= 0x2000_0000_0000_0000_0000_0000_0000_0000
            &&& 0 <= below
            &&& below + power <= 0x10_0000_0000_0000_0000
            &&& 0 <= below * fine <= (below + power) * fine
            &&& (below + power) * fine <= 0x2000_0000_0000_0000_0000_0000_0000_0000
        }),
{
    let fine = fineness(n);
    let a = as_double(n, 1);
    let q = quotient(n, unit);
    let step = power * fine;
    let at = q / step;
    let below = at * power;
    let limit: int = if n < 0x1_0000_0000 {
        0x1_0000_0000
    } else {
        0x1_0000_0000_0000_0000
    };
    lemma_quotient(n, unit);
    assert(2 * (a * fine) <= 3 * (limit * fine)) by (nonlinear_arith)
        requires
            2 * a <= 3 * limit,
            fine > 0,
    ;
    assert(step > 0 && step <= 10 * (limit * fine)) by (nonlinear_arith)
        requires
            step == power * fine,
            1 <= power <= 10 * limit,
            fine > 0,
    ;
    vstd::arithmetic::div_mod::lemma_fundamental_div_mod(q, step);
    vstd::arithmetic::div_mod::lemma_div_pos_is_pos(q, step);
    assert(below >= 0) by (nonlinear_arith)
        requires
            below == at * power,
            at >= 0,
            power >= 1,
    ;
    assert(below * fine == step * at) by (nonlinear_arith)
        requires
            below == at * power,
            step == power * fine,
    ;
    assert((below + power) * fine == below * fine + step) by (nonlinear_arith)
        requires
            step == power * fine,
    ;
    assert(below <= 3 * limit) by (nonlinear_arith)
        requires
            below * fine <= 3 * (limit * fine),
            fine > 0,
    ;
}

/// Rounding to a multiple of a unit gives the nearest one, and of two that are
/// equally near the even one.
pub proof fn law_the_nearest_multiple_is_taken(value: int, unit: int)
    requires
        unit > 0,
    ensures
        ({
            let n = nearest(value, unit);
            &&& 2 * value - unit <= 2 * (n * unit) <= 2 * value + unit
            &&& 2 * (n * unit) == 2 * value - unit || 2 * (n * unit) == 2 * value + unit ==> n % 2
                == 0
        }),
{
    lemma_nearest(value, unit);
    vstd::arithmetic::div_mod::lemma_fundamental_div_mod(value, unit);
    vstd::arithmetic::div_mod::lemma_mod_bound(value, unit);
    let q = value / unit;
    assert((q + 1) * unit == unit * q + unit) by (nonlinear_arith);
    assert(q * unit == unit * q) by (nonlinear_arith);
}

/// A whole number of at most 53 bits is a double, and is not rounded.
pub proof fn law_small_numbers_are_exact(value: int)
    requires
        0 <= value < 0x20_0000_0000_0000,
    ensures
        as_double(value, 1) == value,
{
    assert(double_unit(value, 1) == 1);
}

} // verus!
