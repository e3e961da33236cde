use vstd::prelude::*;
use crate::types::MotorSteps;

verus! {

/// The distance between two step offsets on a line.
pub open spec fn step_gap(a: int, b: int) -> int {
    if a >= b {
        a - b
    } else {
        b - a
    }
}

/// The distance between two horizontal offsets on an axis that wraps after
/// `range_h` steps: the shorter of the direct way and the way round.
pub open spec fn wrapped_gap(a: int, b: int, range_h: int) -> int {
    if step_gap(a, b) <= range_h - step_gap(a, b) {
        step_gap(a, b)
    } else {
        range_h - step_gap(a, b)
    }
}

/// The square of the distance between two positions: the horizontal axis
/// wraps, the vertical axis does not.
pub open spec fn distance_squared(a: MotorSteps, b: MotorSteps, range_h: int) -> int {
    wrapped_gap(a.h as int, b.h as int, range_h) * wrapped_gap(a.h as int, b.h as int, range_h)
        + step_gap(a.v as int, b.v as int) * step_gap(a.v as int, b.v as int)
}

/// `index` is the first position of `candidates` at the least distance from
/// `target`; for no candidates at all it is 0.
pub open spec fn is_nearest_index(
    candidates: Seq<MotorSteps>,
    target: MotorSteps,
    range_h: int,
    index: int,
) -> bool {
    if candidates.len() == 0 {
        index == 0
    } else {
        &&& 0 <= index < candidates.len()
        &&& forall|j: int|
            0 <= j < candidates.len() ==> distance_squared(target, candidates[index], range_h)
                <= distance_squared(target, #[trigger] candidates[j], range_h)
        &&& forall|j: int|
            0 <= j < index ==> distance_squared(target, candidates[index], range_h)
                < distance_squared(target, #[trigger] candidates[j], range_h)
    }
}

/// The square of the distance between two positions on a motor whose
/// horizontal axis wraps after `range_h` steps.
pub fn calculate_distance_squared(range_h: i32, pos1: MotorSteps, pos2: MotorSteps) -> (d: i128)
    ensures
        d == distance_squared(pos1, pos2, range_h as int),
{
    let gap_h: i128 = if pos1.h >= pos2.h {
        pos1.h as i128 - pos2.h as i128
    } else {
        pos2.h as i128 - pos1.h as i128
    };
    let round_h: i128 = range_h as i128 - gap_h;
    let dh: i128 = if gap_h <= round_h {
        gap_h
    } else {
        round_h
    };
    let dv: i128 = if pos1.v >= pos2.v {
        pos1.v as i128 - pos2.v as i128
    } else {
        pos2.v as i128 - pos1.v as i128
    };
    proof {
        assert(0 <= dh * dh <= 0x2_0000_0000 * 0x2_0000_0000) by (nonlinear_arith)
            requires -0x2_0000_0000 <= dh <= 0x2_0000_0000;
        assert(0 <= dv * dv <= 0x2_0000_0000 * 0x2_0000_0000) by (nonlinear_arith)
            requires -0x2_0000_0000 <= dv <= 0x2_0000_0000;
    }
    dh * dh + dv * dv
}

/// The index of the candidate nearest to `target`, the first of them where
/// several are equally near; 0 where there is no candidate.
pub fn nearest_index(candidates: &Vec<MotorSteps>, target: MotorSteps, range_h: i32) -> (index:
    usize)
    ensures
        is_nearest_index(candidates@, target, range_h as int, index as int),
{
    if candidates.len() == 0 {
        return 0;
    }
    let mut closest: usize = 0;
    let mut least: i128 = calculate_distance_squared(range_h, target, candidates[0]);
    let mut i: usize = 1;
    while i < candidates.len()
        invariant
            1 <= i <= candidates@.len(),
            0 <= closest < i,
            least == distance_squared(target, candidates@[closest as int], range_h as int),
            forall|j: int|
                0 <= j < i ==> least <= distance_squared(
                    target,
                    #[trigger] candidates@[j],
                    range_h as int,
                ),
            forall|j: int|
                0 <= j < closest ==> least < distance_squared(
                    target,
                    #[trigger] candidates@[j],
                    range_h as int,
                ),
        decreases candidates@.len() - i,
    {
        let distance: i128 = calculate_distance_squared(range_h, target, candidates[i]);
        if distance < least {
            least = distance;
            closest = i;
        }
        i = i + 1;
    }
    closest
}

} // verus!
