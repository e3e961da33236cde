use vstd::prelude::*;
use crate::types::{Angle, ScanError};

verus! {

/// `p / q` rounded to the nearest integer, halves away from zero (`q > 0`).
pub open spec fn round_div(p: int, q: int) -> int {
    if p >= 0 {
        (2 * p + q) / (2 * q)
    } else {
        -((2 * (-p) + q) / (2 * q))
    }
}

/// The numerator of the angle `num / den` after it is brought into
/// `[-den, den)`, that is the angle into `[-pi, pi)`, by whole turns.
pub open spec fn wrapped_num(num: int, den: int) -> int {
    (num + den) % (2 * den) - den
}

/// The step offset nearest to the angle `num / den` half turns on an axis of
/// `steps` steps: the angle is wrapped into `[-pi, pi)`, scaled by
/// `steps / 2` steps per half turn, and rounded, halves away from zero.
pub open spec fn nearest_step(num: int, den: int, steps: int) -> int {
    round_div(wrapped_num(num, den) * (steps / 2), den)
}

/// The angle of a step offset: `units / (steps / 2)` half turns. An axis of a
/// single step has only its centre, at angle zero.
pub open spec fn step_angle(units: int, steps: int) -> Angle {
    if steps / 2 == 0 {
        Angle { num: 0, den: 1 }
    } else {
        Angle { num: units as i64, den: (steps / 2) as i64 }
    }
}

/// Rounds `p / q` to the nearest integer, halves away from zero.
pub fn round_div_exec(p: i128, q: i128) -> (r: i128)
    requires
        0 < q <= 0x1_0000_0000_0000_0000,
        -0x1_0000_0000_0000_0000_0000_0000 <= p <= 0x1_0000_0000_0000_0000_0000_0000,
    ensures
        r == round_div(p as int, q as int),
        p >= 0 ==> 0 <= r <= p + 1,
        p < 0 ==> -(-p + 1) <= r <= 0,
{
    if p >= 0 {
        let n: i128 = 2 * p + q;
        let r: i128 = n / (2 * q);
        proof {
            lemma_div_bounds(n as int, 2 * q as int);
            assert(r * (2 * q) <= n);
            assert(r <= p + 1) by (nonlinear_arith)
                requires r * (2 * q) <= 2 * p + q, q > 0, r >= 0, p >= 0;
        }
        r
    } else {
        let n: i128 = 2 * (-p) + q;
        let r: i128 = n / (2 * q);
        proof {
            lemma_div_bounds(n as int, 2 * q as int);
            assert(r <= -p + 1) by (nonlinear_arith)
                requires r * (2 * q) <= 2 * (-p) + q, q > 0, r >= 0, p < 0;
        }
        -r
    }
}

/// Floor division by a positive number: the quotient's defining bounds.
pub proof fn lemma_div_bounds(n: int, d: int)
    requires
        d > 0,
        n >= 0,
    ensures
        0 <= n / d,
        (n / d) * d <= n < (n / d) * d + d,
        0 <= n % d < d,
        n == (n / d) * d + n % d,
{
    vstd::arithmetic::div_mod::lemma_fundamental_div_mod(n, d);
    vstd::arithmetic::div_mod::lemma_mod_bound(n, d);
    vstd::arithmetic::div_mod::lemma_div_pos_is_pos(n, d);
    assert(d * (n / d) == (n / d) * d) by (nonlinear_arith);
}

/// The angle of the step offset `motor_units` on an axis of `steps` steps.
///
/// Refused with `Range` where `steps` is not positive, and otherwise with
/// `OutOfRange` where the offset lies outside `[-steps/2, steps/2]`.
pub fn motor_to_rad(motor_units: i32, steps: i32) -> (r: Result<Angle, ScanError>)
    ensures
        steps <= 0 ==> r == Err::<Angle, ScanError>(ScanError::Range),
        steps > 0 && !(-(steps / 2) <= motor_units <= steps / 2) ==> r == Err::<Angle, ScanError>(
            ScanError::OutOfRange,
        ),
        steps > 0 && -(steps / 2) <= motor_units <= steps / 2 ==> r == Ok::<Angle, ScanError>(
            step_angle(motor_units as int, steps as int),
        ),
        r is Ok ==> r->Ok_0.wf() && -r->Ok_0.den <= r->Ok_0.num <= r->Ok_0.den,
{
    if steps <= 0 {
        return Err(ScanError::Range);
    }
    let half_steps: i32 = steps / 2;
    if motor_units < -half_steps || motor_units > half_steps {
        return Err(ScanError::OutOfRange);
    }
    if half_steps == 0 {
        Ok(Angle { num: 0, den: 1 })
    } else {
        Ok(Angle { num: motor_units as i64, den: half_steps as i64 })
    }
}

/// The step offset nearest to `radians` on an axis of `steps` steps, halves
/// rounded away from zero, after the angle is wrapped into `[-pi, pi)`.
///
/// Refused with `Range` where `steps` is not positive. The result lies in
/// `[-steps/2, steps/2]`.
pub fn rad_to_motor(radians: Angle, steps: i32) -> (r: Result<i32, ScanError>)
    requires
        radians.wf(),
    ensures
        steps <= 0 ==> r == Err::<i32, ScanError>(ScanError::Range),
        steps > 0 ==> r == Ok::<i32, ScanError>(
            nearest_step(radians.num as int, radians.den as int, steps as int) as i32,
        ),
        steps > 0 ==> -(steps / 2) <= nearest_step(
            radians.num as int,
            radians.den as int,
            steps as int,
        ) <= steps / 2,
{
    if steps <= 0 {
        return Err(ScanError::Range);
    }
    Ok(step_of_angle(radians, steps))
}

/// The step offset nearest to `radians` on an axis of a positive number of
/// steps: `rad_to_motor` where nothing can be refused.
pub fn step_of_angle(radians: Angle, steps: i32) -> (r: i32)
    requires
        radians.wf(),
        steps > 0,
    ensures
        r == nearest_step(radians.num as int, radians.den as int, steps as int),
        -(steps / 2) <= r <= steps / 2,
{
    let num: i128 = radians.num as i128;
    let den: i128 = radians.den as i128;
    let half_steps: i128 = (steps / 2) as i128;
    let turn: i128 = 2 * den;
    let shifted: i128 = num + den;
    let turned: i128 = if shifted >= 0 {
        shifted % turn
    } else {
        let back: i128 = (-shifted) % turn;
        proof {
            lemma_div_bounds(-shifted as int, turn as int);
            let q = (-shifted as int) / (turn as int);
            assert((-q) * turn == -(q * turn)) by (nonlinear_arith);
            if back == 0 {
                lemma_wrapped_num(num as int, den as int, -q, 0);
            } else {
                assert((-q - 1) * turn + (turn - back) == -(q * turn) - back) by (nonlinear_arith);
                lemma_wrapped_num(num as int, den as int, -q - 1, turn - back);
            }
        }
        if back == 0 {
            0
        } else {
            turn - back
        }
    };
    proof {
        if shifted >= 0 {
            lemma_div_bounds(shifted as int, turn as int);
            lemma_wrapped_num(num as int, den as int, (shifted as int) / (turn as int), turned as int);
        }
    }
    let wrapped: i128 = turned - den;
    proof {
        assert(-(den * half_steps) <= wrapped * half_steps <= den * half_steps)
            by (nonlinear_arith)
            requires -den <= wrapped < den, half_steps >= 0, den > 0;
        assert((-den) * half_steps == -(den * half_steps)) by (nonlinear_arith);
        assert(den * half_steps <= 0x8000_0000_0000_0000 * 0x4000_0000) by (nonlinear_arith)
            requires 0 < den <= 0x8000_0000_0000_0000, 0 <= half_steps <= 0x4000_0000;
    }
    let scaled: i128 = wrapped * half_steps;
    let q: i128 = round_div_exec(scaled, den);
    proof {
        lemma_round_div_bound(scaled as int, den as int, half_steps as int);
    }
    q as i32
}

/// An angle that differs from `turned - den` by `k` whole turns wraps to it.
pub proof fn lemma_wrapped_num(num: int, den: int, k: int, turned: int)
    requires
        den > 0,
        0 <= turned < 2 * den,
        num + den == k * (2 * den) + turned,
    ensures
        wrapped_num(num, den) == turned - den,
{
    vstd::arithmetic::div_mod::lemma_fundamental_div_mod_converse(num + den, 2 * den, k, turned);
}

/// Rounding a quotient that lies within `[-bound, bound]` stays within it.
pub proof fn lemma_round_div_bound(p: int, q: int, bound: int)
    requires
        q > 0,
        bound >= 0,
        -q * bound <= p <= q * bound,
    ensures
        -bound <= round_div(p, q) <= bound,
{
    assert((-q) * bound == -(q * bound)) by (nonlinear_arith);
    if p >= 0 {
        lemma_div_bounds(2 * p + q, 2 * q);
        let r = (2 * p + q) / (2 * q);
        assert(r <= bound) by (nonlinear_arith)
            requires r * (2 * q) <= 2 * p + q, p <= q * bound, q > 0, bound >= 0;
    } else {
        lemma_div_bounds(2 * (-p) + q, 2 * q);
        let r = (2 * (-p) + q) / (2 * q);
        assert(r <= bound) by (nonlinear_arith)
            requires r * (2 * q) <= 2 * (-p) + q, -p <= q * bound, q > 0, bound >= 0;
    }
}

/// Rounding an exact multiple gives the multiplier back.
pub proof fn lemma_round_div_exact(s: int, q: int)
    requires
        q > 0,
    ensures
        round_div(s * q, q) == s,
{
    if s >= 0 {
        assert(s * q >= 0) by (nonlinear_arith)
            requires s >= 0, q > 0;
        assert(2 * (s * q) + q == s * (2 * q) + q) by (nonlinear_arith);
        vstd::arithmetic::div_mod::lemma_fundamental_div_mod_converse(
            2 * (s * q) + q,
            2 * q,
            s,
            q,
        );
    } else {
        assert(s * q < 0) by (nonlinear_arith)
            requires s < 0, q > 0;
        assert(2 * (-(s * q)) + q == (-s) * (2 * q) + q) by (nonlinear_arith);
        vstd::arithmetic::div_mod::lemma_fundamental_div_mod_converse(
            2 * (-(s * q)) + q,
            2 * q,
            -s,
            q,
        );
    }
}

/// A step offset converted to its angle and back is the same offset, for
/// every offset of the axis but its upper end `total / 2`, whose angle is
/// half a turn and wraps to the lower end.
pub proof fn lemma_round_trip(steps: i32, total: i32)
    requires
        total > 0,
        -(total / 2) <= steps <= total / 2,
        !(steps == total / 2 && total >= 2),
    ensures
        nearest_step(
            step_angle(steps as int, total as int).num as int,
            step_angle(steps as int, total as int).den as int,
            total as int,
        ) == steps,
{
    let half = total as int / 2;
    if half == 0 {
        assert(wrapped_num(0, 1) == 0);
        assert(0 * half == 0);
        assert(round_div(0, 1) == 0);
    } else {
        vstd::arithmetic::div_mod::lemma_fundamental_div_mod_converse(
            steps + half,
            2 * half,
            0,
            steps + half,
        );
        assert(wrapped_num(steps as int, half) == steps);
        lemma_round_div_exact(steps as int, half);
    }
}

/// At the upper end of an axis the way there and back gives the lower end.
pub proof fn lemma_round_trip_upper_end(total: i32)
    requires
        total >= 2,
    ensures
        nearest_step(
            step_angle(total as int / 2, total as int).num as int,
            step_angle(total as int / 2, total as int).den as int,
            total as int,
        ) == -(total / 2),
{
    let half = total as int / 2;
    assert(2 * half == 1 * (2 * half) + 0);
    vstd::arithmetic::div_mod::lemma_fundamental_div_mod_converse(half + half, 2 * half, 1, 0);
    assert(wrapped_num(half, half) == -half);
    lemma_round_div_exact(-half, half);
}

} // verus!
