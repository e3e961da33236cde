use vstd::prelude::*;
use crate::types::{Angle, MotorSteps, ScanError};
use crate::sampler::{
    generated, in_hemisphere, ring_count_spec, ring_step_spec, sample_rings,
};
use crate::order::{is_snake_order, lemma_same_members, snake_rings, sort_ring_major};
use crate::locate::{calculate_distance_squared, distance_squared, is_nearest_index, nearest_index};

verus! {

/// A cyclic cursor over the scan positions of one motor.
pub struct ScannerEnumerator {
    pub motor_range: MotorSteps,
    pub fov_h: Angle,
    pub fov_v: Angle,
    pub positions: Vec<MotorSteps>,
    pub current_index: usize,
}

/// The index at which a cursor over `len` positions stands after one more
/// step from `index`.
pub open spec fn next_index(len: int, index: int) -> int {
    (index + 1) % len
}

/// The index at which a cursor over `len` positions stands after `calls`
/// steps from `index`.
pub open spec fn index_after(len: int, index: int, calls: nat) -> int
    decreases calls,
{
    if calls == 0 {
        index
    } else {
        next_index(len, index_after(len, index, (calls - 1) as nat))
    }
}

/// After `calls` steps the cursor has moved on by `calls`, round the cycle.
pub proof fn lemma_index_after(len: int, index: int, calls: nat)
    requires
        len > 0,
        0 <= index < len,
    ensures
        index_after(len, index, calls) == (index + calls) % len,
    decreases calls,
{
    if calls == 0 {
        vstd::arithmetic::div_mod::lemma_small_mod(index as nat, len as nat);
    } else {
        lemma_index_after(len, index, (calls - 1) as nat);
        let before = index + calls - 1;
        vstd::arithmetic::div_mod::lemma_fundamental_div_mod(before, len);
        vstd::arithmetic::div_mod::lemma_mod_bound(before, len);
        let q = before / len;
        let r = before % len;
        assert(len * q == q * len) by (nonlinear_arith);
        if r + 1 < len {
            vstd::arithmetic::div_mod::lemma_fundamental_div_mod_converse(r + 1, len, 0, r + 1);
            vstd::arithmetic::div_mod::lemma_fundamental_div_mod_converse(
                before + 1,
                len,
                q,
                r + 1,
            );
        } else {
            assert((q + 1) * len == q * len + len) by (nonlinear_arith);
            vstd::arithmetic::div_mod::lemma_fundamental_div_mod_converse(r + 1, len, 1, 0);
            vstd::arithmetic::div_mod::lemma_fundamental_div_mod_converse(
                before + 1,
                len,
                q + 1,
                0,
            );
        }
    }
}

/// A cursor over `len` positions is back at its index after exactly `len`
/// steps, and after no fewer.
pub proof fn lemma_cursor_cycle(len: int, index: int)
    requires
        len > 0,
        0 <= index < len,
    ensures
        index_after(len, index, len as nat) == index,
        forall|calls: nat| 0 < calls < len ==> #[trigger] index_after(len, index, calls) != index,
{
    lemma_index_after(len, index, len as nat);
    vstd::arithmetic::div_mod::lemma_fundamental_div_mod_converse(index + len, len, 1, index);
    assert forall|calls: nat| 0 < calls < len implies #[trigger] index_after(len, index, calls)
        != index by {
        lemma_index_after(len, index, calls);
        if index + calls < len {
            vstd::arithmetic::div_mod::lemma_fundamental_div_mod_converse(
                index + calls,
                len,
                0,
                index + calls,
            );
        } else {
            vstd::arithmetic::div_mod::lemma_fundamental_div_mod_converse(
                index + calls,
                len,
                1,
                index + calls - len,
            );
        }
    }
}

impl ScannerEnumerator {
    /// The cursor over the scan positions of a motor: every ring sampled,
    /// laid out as a snake, and the cursor set on the position nearest to
    /// `initial_position`.
    ///
    /// `ring_radii[k]` is the cosine, in millionths, of the elevation of ring
    /// `k`. Refused where the initial position lies outside the upper
    /// hemisphere, and otherwise where a motor range is not positive.
    pub fn new(
        motor_range: MotorSteps,
        fov_h: Angle,
        fov_v: Angle,
        initial_position: MotorSteps,
        ring_radii: &Vec<i32>,
    ) -> (r: Result<Self, ScanError>)
        requires
            fov_h.positive(),
            fov_v.wf(),
            motor_range.v > 0 ==> ring_radii@.len() == ring_count_spec(
                motor_range.v as int,
                ring_step_spec(motor_range.v as int, fov_v),
            ),
        ensures
            r is Ok == generated(motor_range, fov_h, fov_v, initial_position, ring_radii@) is Ok,
            r is Err ==> r->Err_0 == generated(
                motor_range,
                fov_h,
                fov_v,
                initial_position,
                ring_radii@,
            )->Err_0,
            r is Ok ==> {
                &&& r->Ok_0.motor_range == motor_range
                &&& r->Ok_0.fov_h == fov_h
                &&& r->Ok_0.fov_v == fov_v
                &&& r->Ok_0.positions@.to_multiset() == generated(
                    motor_range,
                    fov_h,
                    fov_v,
                    initial_position,
                    ring_radii@,
                )->Ok_0.to_multiset()
                &&& is_snake_order(r->Ok_0.positions@)
                &&& r->Ok_0.positions@.len() > 0
                &&& is_nearest_index(
                    r->Ok_0.positions@,
                    initial_position,
                    motor_range.h as int,
                    r->Ok_0.current_index as int,
                )
                &&& forall|i: int|
                    0 <= i < r->Ok_0.positions@.len() ==> in_hemisphere(
                        #[trigger] r->Ok_0.positions@[i],
                        motor_range,
                    )
            },
    {
        let mut se = ScannerEnumerator {
            motor_range,
            fov_h,
            fov_v,
            positions: Vec::new(),
            current_index: 0,
        };
        let raw = match se.generate_circle_positions(initial_position, ring_radii) {
            Ok(raw) => raw,
            Err(e) => {
                return Err(e);
            },
        };
        se.positions = se.optimize_circle_positions(raw);
        se.current_index = se.find_closest_position_index(initial_position);
        proof {
            lemma_same_members(se.positions@, raw@);
        }
        Ok(se)
    }

    /// The position under the cursor, if there is one.
    pub fn current(&self) -> (r: Option<MotorSteps>)
        ensures
            r == if self.current_index < self.positions@.len() {
                Some(self.positions@[self.current_index as int])
            } else {
                None
            },
    {
        if !(self.positions.len() == 0) && self.current_index < self.positions.len() {
            Some(self.positions[self.current_index])
        } else {
            None
        }
    }

    /// Moves the cursor to the next position, from the last one back to the
    /// first. Returns `false`, and changes nothing, where there are no
    /// positions.
    pub fn move_next(&mut self) -> (moved: bool)
        ensures
            moved == (old(self).positions@.len() > 0),
            final(self).positions == old(self).positions,
            final(self).motor_range == old(self).motor_range,
            final(self).fov_h == old(self).fov_h,
            final(self).fov_v == old(self).fov_v,
            moved ==> final(self).current_index == next_index(
                old(self).positions@.len() as int,
                old(self).current_index as int,
            ),
            !moved ==> final(self).current_index == old(self).current_index,
    {
        let len: usize = self.positions.len();
        if len == 0 {
            return false;
        }
        let within: usize = self.current_index % len;
        proof {
            let index = self.current_index as int;
            let q = index / (len as int);
            vstd::arithmetic::div_mod::lemma_fundamental_div_mod(index, len as int);
            assert((len as int) * q == q * len) by (nonlinear_arith);
            if within + 1 == len {
                assert((q + 1) * len == q * len + len) by (nonlinear_arith);
                vstd::arithmetic::div_mod::lemma_fundamental_div_mod_converse(
                    index + 1,
                    len as int,
                    q + 1,
                    0,
                );
            } else {
                vstd::arithmetic::div_mod::lemma_fundamental_div_mod_converse(
                    index + 1,
                    len as int,
                    q,
                    within + 1,
                );
            }
        }
        self.current_index = if within + 1 == len {
            0
        } else {
            within + 1
        };
        true
    }

    /// The positions regrouped by ring: rings by ascending elevation, each
    /// ring by ascending horizontal step, every second ring back to front.
    pub fn optimize_circle_positions(&self, positions: Vec<MotorSteps>) -> (out: Vec<MotorSteps>)
        ensures
            out@.to_multiset() == positions@.to_multiset(),
            out@.len() == positions@.len(),
            is_snake_order(out@),
    {
        let sorted = sort_ring_major(&positions);
        snake_rings(&sorted)
    }

    /// The samples of every ring, ring after ring and by ascending azimuth
    /// within a ring.
    pub fn generate_circle_positions(
        &self,
        initial_position: MotorSteps,
        ring_radii: &Vec<i32>,
    ) -> (r: Result<Vec<MotorSteps>, ScanError>)
        requires
            self.fov_h.positive(),
            self.fov_v.wf(),
            self.motor_range.v > 0 ==> ring_radii@.len() == ring_count_spec(
                self.motor_range.v as int,
                ring_step_spec(self.motor_range.v as int, self.fov_v),
            ),
        ensures
            r is Ok == generated(
                self.motor_range,
                self.fov_h,
                self.fov_v,
                initial_position,
                ring_radii@,
            ) is Ok,
            r is Ok ==> r->Ok_0@ == generated(
                self.motor_range,
                self.fov_h,
                self.fov_v,
                initial_position,
                ring_radii@,
            )->Ok_0,
            r is Err ==> r->Err_0 == generated(
                self.motor_range,
                self.fov_h,
                self.fov_v,
                initial_position,
                ring_radii@,
            )->Err_0,
            r is Ok ==> r->Ok_0@.len() > 0,
            r is Ok ==> forall|i: int|
                0 <= i < r->Ok_0@.len() ==> in_hemisphere(#[trigger] r->Ok_0@[i], self.motor_range),
    {
        sample_rings(self.motor_range, self.fov_h, self.fov_v, initial_position, ring_radii)
    }

    /// The square of the distance between two positions on this motor, whose
    /// horizontal axis wraps after `motor_range.h` steps.
    pub fn calculate_distance_squared(&self, pos1: MotorSteps, pos2: MotorSteps) -> (d: i128)
        ensures
            d == distance_squared(pos1, pos2, self.motor_range.h as int),
    {
        calculate_distance_squared(self.motor_range.h, pos1, pos2)
    }

    /// The index of the position nearest to `initial_position`, the first of
    /// them where several are equally near; 0 where there are no positions.
    pub fn find_closest_position_index(&self, initial_position: MotorSteps) -> (index: usize)
        ensures
            is_nearest_index(
                self.positions@,
                initial_position,
                self.motor_range.h as int,
                index as int,
            ),
    {
        nearest_index(&self.positions, initial_position, self.motor_range.h)
    }
}

} // verus!
