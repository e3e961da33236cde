use vstd::prelude::*;
use crate::types::{Angle, MotorSteps, ScanError};
use crate::convert::{lemma_div_bounds, nearest_step, round_div, round_div_exec, step_of_angle};

verus! {

/// The unit of a ring radius: the cosine of a ring's elevation is given in
/// millionths.
pub const RADIUS_SCALE: i32 = 1_000_000;

/// Half of a range, rounded towards zero.
pub open spec fn half_range(x: int) -> int {
    if x >= 0 {
        x / 2
    } else {
        -((-x) / 2)
    }
}

/// `x` held between 1 and the largest `i32`.
pub open spec fn clamp_count(x: int) -> int {
    if x < 1 {
        1
    } else if x > i32::MAX {
        i32::MAX as int
    } else {
        x
    }
}

/// The distance in steps between two neighbouring rings: the vertical field of
/// view as a share of the full turn of `range_v` steps, rounded, at least 1.
pub open spec fn ring_step_spec(range_v: int, fov_v: Angle) -> int {
    clamp_count(round_div(range_v * fov_v.num, 2 * fov_v.den))
}

/// The number of rings: elevations `0, step, 2 * step, ..` up to `range_v / 2`.
pub open spec fn ring_count_spec(range_v: int, ring_step: int) -> int {
    (range_v / 2) / ring_step + 1
}

/// `a / b` rounded up, for `b > 0`.
pub open spec fn ceil_div(a: int, b: int) -> int {
    if a <= 0 {
        -((-a) / b)
    } else {
        (a + b - 1) / b
    }
}

/// The number of azimuth samples on a ring of the given radius (in
/// millionths): the ring's circumference, `2 * radius` half turns, divided by
/// the horizontal field of view and rounded up, at least 1.
pub open spec fn azimuth_count_spec(radius: int, fov_h: Angle) -> int {
    clamp_count(ceil_div(2 * radius * fov_h.den, RADIUS_SCALE * fov_h.num))
}

/// A step offset brought into `[-range/2, range - range/2)` by wrapping round
/// the axis.
pub open spec fn wrap_step(h: int, range: int) -> int {
    (h + range / 2) % range - range / 2
}

/// The horizontal step of sample `i` of `count` on a ring: the azimuth
/// `2 * i / count` half turns, converted to steps and wrapped.
pub open spec fn azimuth_step(i: int, count: int, range_h: int) -> int {
    wrap_step(nearest_step(2 * i, count, range_h), range_h)
}

/// The samples of one ring, by ascending azimuth.
pub open spec fn ring_positions(range_h: int, v: int, count: int) -> Seq<MotorSteps> {
    Seq::new(
        count as nat,
        |i: int| (MotorSteps { h: azimuth_step(i, count, range_h) as i32, v: v as i32 }),
    )
}

/// The samples of the first `k` rings, ring after ring.
pub open spec fn raw_positions(
    range_h: int,
    ring_step: int,
    radii: Seq<i32>,
    fov_h: Angle,
    k: nat,
) -> Seq<MotorSteps>
    decreases k,
{
    if k == 0 {
        Seq::empty()
    } else {
        raw_positions(range_h, ring_step, radii, fov_h, (k - 1) as nat) + ring_positions(
            range_h,
            (k - 1) * ring_step,
            azimuth_count_spec(radii[k - 1] as int, fov_h),
        )
    }
}

/// What the ring sampler returns for a motor range, the two fields of view, an
/// initial position and the rings' radii.
pub open spec fn generated(
    range: MotorSteps,
    fov_h: Angle,
    fov_v: Angle,
    initial: MotorSteps,
    radii: Seq<i32>,
) -> Result<Seq<MotorSteps>, ScanError> {
    if initial.v < 0 || initial.v > half_range(range.v as int) {
        Err(ScanError::InvalidInitialPosition)
    } else if range.v <= 0 || range.h <= 0 {
        Err(ScanError::Range)
    } else {
        Ok(
            raw_positions(
                range.h as int,
                ring_step_spec(range.v as int, fov_v),
                radii,
                fov_h,
                ring_count_spec(range.v as int, ring_step_spec(range.v as int, fov_v)) as nat,
            ),
        )
    }
}

/// The distance in steps between two neighbouring rings.
pub fn ring_step_size(range_v: i32, fov_v: Angle) -> (n: i32)
    requires
        fov_v.wf(),
    ensures
        n == ring_step_spec(range_v as int, fov_v),
        n >= 1,
{
    proof {
        assert(-0x8000_0000 * 0x8000_0000_0000_0000 <= (range_v as int) * (fov_v.num as int)
            <= 0x8000_0000 * 0x8000_0000_0000_0000) by (nonlinear_arith)
            requires
                -0x8000_0000 <= range_v as int <= 0x8000_0000,
                -0x8000_0000_0000_0000 <= fov_v.num as int <= 0x8000_0000_0000_0000,
        ;
    }
    let p: i128 = (range_v as i128) * (fov_v.num as i128);
    let r: i128 = round_div_exec(p, 2 * (fov_v.den as i128));
    if r < 1 {
        1
    } else if r > i32::MAX as i128 {
        i32::MAX
    } else {
        r as i32
    }
}

/// The number of rings between elevation 0 and `range_v / 2`, both included.
pub fn ring_count(range_v: i32, ring_step: i32) -> (n: usize)
    requires
        range_v > 0,
        ring_step > 0,
    ensures
        n == ring_count_spec(range_v as int, ring_step as int),
        1 <= n <= range_v / 2 + 1,
        (n - 1) * ring_step <= range_v / 2 < n * ring_step,
{
    let half: i32 = range_v / 2;
    let q: i32 = half / ring_step;
    proof {
        lemma_div_bounds(half as int, ring_step as int);
        assert(q <= half) by (nonlinear_arith)
            requires q * ring_step <= half, ring_step >= 1, q >= 0;
        assert((q + 1) * ring_step == q * ring_step + ring_step) by (nonlinear_arith);
    }
    (q as usize) + 1
}

/// The elevation of every ring in steps, from the horizon upwards: the rings
/// whose radii the sampler asks for, in the same order. A range that is not
/// positive has no rings.
pub fn ring_elevations(range_v: i32, fov_v: Angle) -> (rings: Vec<i32>)
    requires
        fov_v.wf(),
    ensures
        range_v <= 0 ==> rings@.len() == 0,
        range_v > 0 ==> rings@.len() == ring_count_spec(
            range_v as int,
            ring_step_spec(range_v as int, fov_v),
        ),
        forall|k: int|
            0 <= k < rings@.len() ==> #[trigger] rings@[k] == k * ring_step_spec(
                range_v as int,
                fov_v,
            ),
{
    let mut rings: Vec<i32> = Vec::new();
    if range_v <= 0 {
        return rings;
    }
    let ring_step: i32 = ring_step_size(range_v, fov_v);
    let count: usize = ring_count(range_v, ring_step);
    let mut k: usize = 0;
    while k < count
        invariant
            0 <= k <= count,
            ring_step >= 1,
            (count - 1) * ring_step <= range_v / 2,
            count <= range_v / 2 + 1,
            rings@.len() == k,
            forall|j: int| 0 <= j < k ==> #[trigger] rings@[j] == j * ring_step,
        decreases count - k,
    {
        proof {
            assert(k * ring_step <= (count - 1) * ring_step) by (nonlinear_arith)
                requires k <= count - 1, ring_step >= 1;
        }
        rings.push((k as i32) * ring_step);
        k = k + 1;
    }
    rings
}

/// The number of azimuth samples on a ring whose radius, the cosine of its
/// elevation, is `radius` millionths.
///
/// Unless the count is capped at the largest `i32`, neighbouring samples are
/// no further apart than the field of view: `count` fields of view cover the
/// circumference, and where `count > 1`, `count - 1` of them do not.
pub fn azimuth_count(radius: i32, fov_h: Angle) -> (n: i32)
    requires
        fov_h.positive(),
    ensures
        n == azimuth_count_spec(radius as int, fov_h),
        n >= 1,
        n < i32::MAX ==> n * (RADIUS_SCALE * fov_h.num) >= 2 * radius * fov_h.den,
        n > 1 ==> (n - 1) * (RADIUS_SCALE * fov_h.num) < 2 * radius * fov_h.den,
{
    proof {
        assert(-0x1_0000_0000 * 0x8000_0000_0000_0000 <= 2 * (radius as int) * (fov_h.den as int)
            <= 0x1_0000_0000 * 0x8000_0000_0000_0000) by (nonlinear_arith)
            requires
                -0x8000_0000 <= radius as int <= 0x8000_0000,
                0 < fov_h.den as int <= 0x8000_0000_0000_0000,
        ;
        assert(0 < 1_000_000 * (fov_h.num as int) <= 1_000_000 * 0x8000_0000_0000_0000)
            by (nonlinear_arith)
            requires
                0 < fov_h.num as int <= 0x8000_0000_0000_0000,
        ;
    }
    let a: i128 = 2 * (radius as i128) * (fov_h.den as i128);
    let b: i128 = (RADIUS_SCALE as i128) * (fov_h.num as i128);
    if a <= 0 {
        proof {
            lemma_div_bounds(-a as int, b as int);
        }
        1
    } else {
        let c: i128 = (a + b - 1) / b;
        proof {
            lemma_div_bounds((a + b - 1) as int, b as int);
            assert(c >= 1) by (nonlinear_arith)
                requires c * b + b > a + b - 1, a >= 1, b >= 1;
            assert((c - 1) * b == c * b - b) by (nonlinear_arith);
        }
        if c > i32::MAX as i128 {
            proof {
                assert((i32::MAX - 1) * b < a) by (nonlinear_arith)
                    requires c * b - b < a, c > i32::MAX, b > 0;
            }
            i32::MAX
        } else {
            c as i32
        }
    }
}

/// The position lies in the upper hemisphere of the motor: its horizontal
/// step in `[-range.h/2, range.h - range.h/2)`, its vertical step in
/// `[0, range.v/2]`.
pub open spec fn in_hemisphere(p: MotorSteps, range: MotorSteps) -> bool {
    &&& -(range.h / 2) <= p.h < range.h - range.h / 2
    &&& 0 <= p.v <= range.v / 2
}

/// Every generated position lies in the upper hemisphere, and the sequence
/// holds at least the sample of the lowest ring.
pub proof fn lemma_raw_positions_in_hemisphere(
    range: MotorSteps,
    ring_step: int,
    radii: Seq<i32>,
    fov_h: Angle,
    k: nat,
)
    requires
        range.h > 0,
        range.v > 0,
        ring_step >= 1,
        k <= ring_count_spec(range.v as int, ring_step),
    ensures
        forall|i: int|
            0 <= i < raw_positions(range.h as int, ring_step, radii, fov_h, k).len()
                ==> in_hemisphere(
                #[trigger] raw_positions(range.h as int, ring_step, radii, fov_h, k)[i],
                range,
            ),
        k > 0 ==> raw_positions(range.h as int, ring_step, radii, fov_h, k).len() > 0,
        range.h % 2 == 0 ==> forall|i: int|
            0 <= i < raw_positions(range.h as int, ring_step, radii, fov_h, k).len()
                ==> (#[trigger] raw_positions(range.h as int, ring_step, radii, fov_h, k)[i]).h
                < range.h / 2,
    decreases k,
{
    if k > 0 {
        lemma_raw_positions_in_hemisphere(range, ring_step, radii, fov_h, (k - 1) as nat);
        let earlier = raw_positions(range.h as int, ring_step, radii, fov_h, (k - 1) as nat);
        let count = azimuth_count_spec(radii[k - 1] as int, fov_h);
        let v = (k - 1) * ring_step;
        let ring = ring_positions(range.h as int, v, count);
        let all = raw_positions(range.h as int, ring_step, radii, fov_h, k);
        assert(all == earlier + ring);
        lemma_div_bounds(range.v as int / 2, ring_step);
        assert(0 <= v <= range.v / 2) by (nonlinear_arith)
            requires
                v == (k - 1) * ring_step,
                0 <= k - 1 <= (range.v as int / 2) / ring_step,
                ((range.v as int / 2) / ring_step) * ring_step <= range.v / 2,
                ring_step >= 1,
        ;
        assert forall|i: int| 0 <= i < all.len() implies in_hemisphere(#[trigger] all[i], range) by {
            if i >= earlier.len() {
                let j = i - earlier.len();
                assert(all[i] == ring[j]);
                lemma_wrap_step_range(nearest_step(2 * j, count, range.h as int), range.h as int);
            }
        }
    }
}

/// No ring is left out: each of the first `n` rings has a sample at its
/// elevation, `k` ring steps above the horizon.
pub proof fn lemma_every_ring_sampled(
    range_h: int,
    ring_step: int,
    radii: Seq<i32>,
    fov_h: Angle,
    n: nat,
    k: int,
)
    requires
        0 <= k < n,
    ensures
        exists|i: int|
            0 <= i < raw_positions(range_h, ring_step, radii, fov_h, n).len() && (
            #[trigger] raw_positions(range_h, ring_step, radii, fov_h, n)[i]).v == (k
                * ring_step) as i32,
    decreases n,
{
    let earlier = raw_positions(range_h, ring_step, radii, fov_h, (n - 1) as nat);
    let count = azimuth_count_spec(radii[n - 1] as int, fov_h);
    let ring = ring_positions(range_h, (n - 1) * ring_step, count);
    let all = raw_positions(range_h, ring_step, radii, fov_h, n);
    assert(all == earlier + ring);
    if k == n - 1 {
        assert(all[earlier.len() as int] == ring[0]);
    } else {
        lemma_every_ring_sampled(range_h, ring_step, radii, fov_h, (n - 1) as nat, k);
        let i = choose|i: int|
            0 <= i < earlier.len() && (#[trigger] earlier[i]).v == (k * ring_step) as i32;
        assert(all[i] == earlier[i]);
    }
}

/// Wrapping brings every step offset into `[-range/2, range - range/2)`.
pub proof fn lemma_wrap_step_range(h: int, range: int)
    requires
        range > 0,
    ensures
        -(range / 2) <= wrap_step(h, range) < range - range / 2,
{
    vstd::arithmetic::div_mod::lemma_mod_bound(h + range / 2, range);
}

/// The samples of every ring of a motor: pure arithmetic on the ranges, the
/// fields of view and the rings' radii.
///
/// `ring_radii[k]` is the cosine, in millionths, of the elevation of ring `k`,
/// which stands at `k * ring_step_size(range.v, fov_v)` steps.
pub fn sample_rings(
    range: MotorSteps,
    fov_h: Angle,
    fov_v: Angle,
    initial_position: MotorSteps,
    ring_radii: &Vec<i32>,
) -> (r: Result<Vec<MotorSteps>, ScanError>)
    requires
        fov_h.positive(),
        fov_v.wf(),
        range.v > 0 ==> ring_radii@.len() == ring_count_spec(
            range.v as int,
            ring_step_spec(range.v as int, fov_v),
        ),
    ensures
        r is Ok == generated(range, fov_h, fov_v, initial_position, ring_radii@) is Ok,
        r is Ok ==> r->Ok_0@ == generated(range, fov_h, fov_v, initial_position, ring_radii@)->Ok_0,
        r is Err ==> r->Err_0 == generated(
            range,
            fov_h,
            fov_v,
            initial_position,
            ring_radii@,
        )->Err_0,
        r is Ok ==> r->Ok_0@.len() > 0,
        r is Ok ==> forall|i: int|
            0 <= i < r->Ok_0@.len() ==> in_hemisphere(#[trigger] r->Ok_0@[i], range),
{
    if initial_position.v < 0 {
        return Err(ScanError::InvalidInitialPosition);
    }
    if range.v < 0 {
        // Half of a negative range is negative, or zero for a range of -1.
        if initial_position.v > 0 || range.v < -1 {
            return Err(ScanError::InvalidInitialPosition);
        }
        return Err(ScanError::Range);
    }
    if initial_position.v > range.v / 2 {
        return Err(ScanError::InvalidInitialPosition);
    }
    if range.v <= 0 || range.h <= 0 {
        return Err(ScanError::Range);
    }
    let ring_step: i32 = ring_step_size(range.v, fov_v);
    let rings: usize = ring_count(range.v, ring_step);
    let half_h: i32 = range.h / 2;
    let mut positions: Vec<MotorSteps> = Vec::new();
    let mut k: usize = 0;
    while k < rings
        invariant
            0 <= k <= rings,
            rings == ring_radii@.len(),
            range.h > 0,
            range.v > 0,
            half_h == range.h / 2,
            ring_step >= 1,
            (rings - 1) * ring_step <= range.v / 2,
            rings <= range.v / 2 + 1,
            fov_h.positive(),
            positions@ == raw_positions(range.h as int, ring_step as int, ring_radii@, fov_h, k as nat),
        decreases rings - k,
    {
        proof {
            assert(k * ring_step <= (rings - 1) * ring_step) by (nonlinear_arith)
                requires k <= rings - 1, ring_step >= 1;
        }
        let v: i32 = (k as i32) * ring_step;
        let count: i32 = azimuth_count(ring_radii[k], fov_h);
        let ghost before = positions@;
        proof {
            assert(before + ring_positions(range.h as int, v as int, count as int).take(0)
                =~= before);
        }
        let ghost ring = ring_positions(range.h as int, v as int, count as int);
        let mut i: i32 = 0;
        while i < count
            invariant
                0 <= i <= count,
                range.h > 0,
                half_h == range.h / 2,
                ring == ring_positions(range.h as int, v as int, count as int),
                positions@ == before + ring.take(i as int),
            decreases count - i,
        {
            let azimuth = Angle { num: 2 * (i as i64), den: count as i64 };
            let h: i32 = step_of_angle(azimuth, range.h);
            let wrapped: i32 = (h + half_h) % range.h - half_h;
            proof {
                lemma_wrap_step_range(h as int, range.h as int);
                assert(ring.take(i + 1) =~= ring.take(i as int).push(ring[i as int]));
            }
            positions.push(MotorSteps { h: wrapped, v });
            i = i + 1;
        }
        proof {
            assert(ring.take(count as int) =~= ring);
            assert(raw_positions(
                range.h as int,
                ring_step as int,
                ring_radii@,
                fov_h,
                (k + 1) as nat,
            ) == before + ring);
        }
        k = k + 1;
    }
    proof {
        lemma_raw_positions_in_hemisphere(range, ring_step as int, ring_radii@, fov_h, rings as nat);
    }
    Ok(positions)
}

} // verus!
