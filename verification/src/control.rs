//! The integer part of one visual-servo step: per-joint pulse changes under a
//! rate limit, then the arm's joint limits.
//!
//! The metric error, its distance and the gain products are floating point
//! and are computed by the caller, which hands over whether the goal was
//! reached and each joint's pulse change rounded to the nearest integer.

use vstd::prelude::*;
use crate::arm::{
    clamp_command, command_error, first_limit, validation, valid_arm, ArmPose,
    JointCommand, JointId, JointLimit, Pulse, RobotArmSpec,
};
use crate::pose_laws::{
    clamp_keeps_valid_pose, clamped_pose_validates, first_limit_of_own_id, validation_ok_iff_each_command_ok,
};

verus! {

/// `v` limited to `lo..=hi`.
pub open spec fn clamp_int(v: int, lo: int, hi: int) -> int {
    if v < lo {
        lo
    } else if v > hi {
        hi
    } else {
        v
    }
}

/// The rate limit: `max_abs` if it is positive, else 0.
pub open spec fn rate_limit(max_abs: i32) -> int {
    if max_abs > 0 {
        max_abs as int
    } else {
        0
    }
}

/// A rounded pulse change limited to `-rate_limit(max_abs)..=rate_limit(max_abs)`.
pub open spec fn limited(delta: i64, max_abs: i32) -> int {
    clamp_int(delta as int, -rate_limit(max_abs), rate_limit(max_abs))
}

/// `pulse + delta`, saturated to the range of a pulse.
pub open spec fn shifted(pulse: Pulse, delta: int) -> Pulse {
    Pulse(clamp_int(pulse.0 + delta, 0, 65535) as u16)
}

/// The limited change for joint `id`: that of the first entry of `deltas`
/// for it, else 0.
pub open spec fn joint_delta(deltas: Seq<(JointId, i64)>, id: JointId, max_abs: i32) -> int
    decreases deltas.len(),
{
    if deltas.len() == 0 {
        0
    } else if deltas[0].0 == id {
        limited(deltas[0].1, max_abs)
    } else {
        joint_delta(deltas.drop_first(), id, max_abs)
    }
}

/// A command moved by its joint's limited change.
pub open spec fn moved_command(deltas: Seq<(JointId, i64)>, max_abs: i32, c: JointCommand) -> JointCommand {
    JointCommand { id: c.id, pulse: shifted(c.pulse, joint_delta(deltas, c.id, max_abs)) }
}

/// The commands of the next pose.
pub open spec fn next_commands(
    joints: Seq<JointLimit>,
    current: Seq<JointCommand>,
    reached: bool,
    deltas: Seq<(JointId, i64)>,
    max_abs: i32,
) -> Seq<JointCommand> {
    if reached {
        current.map_values(|c: JointCommand| clamp_command(joints, c))
    } else {
        current.map_values(
            |c: JointCommand| clamp_command(joints, moved_command(deltas, max_abs, c)),
        )
    }
}

/// No moved pulse leaves the range of `i32` before saturation.
pub open spec fn moves_in_range(current: Seq<JointCommand>, deltas: Seq<(JointId, i64)>, max_abs: i32) -> bool {
    forall|i: int|
        0 <= i < current.len() ==> (#[trigger] current[i]).pulse.0 + joint_delta(deltas, current[i].id, max_abs)
            <= i32::MAX
}

/// A rounded pulse change limited to at most `max_abs` either way (none if
/// `max_abs` is not positive).
pub fn limited_delta(delta: i64, max_abs: i32) -> (r: i32)
    ensures
        r == limited(delta, max_abs),
{
    let max_abs: i64 = if max_abs > 0 { max_abs as i64 } else { 0 };
    if delta < -max_abs {
        (-max_abs) as i32
    } else if delta > max_abs {
        max_abs as i32
    } else {
        delta as i32
    }
}

/// `pulse + delta`, saturated to `0..=65535`.
pub fn add_delta(pulse: Pulse, delta: i32) -> (r: Pulse)
    requires
        pulse.0 + delta <= i32::MAX,
    ensures
        r == shifted(pulse, delta as int),
{
    let v: i32 = pulse.0 as i32 + delta;
    if v < 0 {
        Pulse(0)
    } else if v > 65535 {
        Pulse(65535)
    } else {
        Pulse(v as u16)
    }
}

/// The limited change for joint `id`.
fn delta_for(deltas: &[(JointId, i64)], id: JointId, max_abs: i32) -> (r: i32)
    ensures
        r == joint_delta(deltas@, id, max_abs),
{
    let mut i: usize = 0;
    assert(deltas@.skip(0) =~= deltas@);
    while i < deltas.len()
        invariant
            i <= deltas@.len(),
            joint_delta(deltas@, id, max_abs) == joint_delta(deltas@.skip(i as int), id, max_abs),
        decreases deltas@.len() - i,
    {
        let (joint, delta) = deltas[i];
        assert(deltas@.skip(i as int)[0] == deltas@[i as int]);
        if joint == id {
            return limited_delta(delta, max_abs);
        }
        assert(deltas@.skip(i as int).drop_first() =~= deltas@.skip(i + 1));
        i += 1;
    }
    0
}

/// Whether every moved pulse of `current_pose` stays within the range of
/// `i32` before saturation, as `next_servo_pose` needs when the goal was not
/// reached.
pub fn moves_fit(current_pose: &ArmPose, deltas: &[(JointId, i64)], max_delta_pulse: i32) -> (r: bool)
    ensures
        r == moves_in_range(current_pose@, deltas@, max_delta_pulse),
{
    let commands = current_pose.commands();
    let mut i: usize = 0;
    while i < commands.len()
        invariant
            i <= commands@.len(),
            commands@ == current_pose@,
            forall|k: int|
                0 <= k < i ==> (#[trigger] commands@[k]).pulse.0 + joint_delta(deltas@, commands@[k].id, max_delta_pulse)
                    <= i32::MAX,
        decreases commands@.len() - i,
    {
        let c = commands[i];
        let d = delta_for(deltas, c.id, max_delta_pulse);
        if c.pulse.0 as i64 + d as i64 > i32::MAX as i64 {
            return false;
        }
        i += 1;
    }
    true
}

/// The next pose of one servo step: if the goal was reached, the current
/// pose clamped to the arm's limits; otherwise each joint moved by its
/// rounded change limited to `max_delta_pulse` either way (the first entry of
/// `deltas` for a joint counts; joints without one stay), then clamped.
pub fn next_servo_pose(
    spec: &RobotArmSpec,
    current_pose: &ArmPose,
    reached: bool,
    deltas: &[(JointId, i64)],
    max_delta_pulse: i32,
) -> (r: ArmPose)
    requires
        reached || moves_in_range(current_pose@, deltas@, max_delta_pulse),
    ensures
        r@ == next_commands(spec@, current_pose@, reached, deltas@, max_delta_pulse),
{
    if reached {
        return spec.clamp_pose(current_pose);
    }
    let f = |command: JointCommand| -> (out: JointCommand)
        requires
            command.pulse.0 + joint_delta(deltas@, command.id, max_delta_pulse) <= i32::MAX,
        ensures
            out == moved_command(deltas@, max_delta_pulse, command),
        {
            let delta = delta_for(deltas, command.id, max_delta_pulse);
            JointCommand { id: command.id, pulse: add_delta(command.pulse, delta) }
        };
    let moved = current_pose.map_pulses(f);
    assert(moved@ =~= current_pose@.map_values(|c: JointCommand| moved_command(deltas@, max_delta_pulse, c)));
    let r = spec.clamp_pose(&moved);
    assert(r@ =~= next_commands(spec@, current_pose@, reached, deltas@, max_delta_pulse));
    r
}

proof fn lemma_joint_delta_bounded(deltas: Seq<(JointId, i64)>, id: JointId, max_abs: i32)
    ensures
        -rate_limit(max_abs) <= joint_delta(deltas, id, max_abs) <= rate_limit(max_abs),
    decreases deltas.len(),
{
    if deltas.len() > 0 && deltas[0].0 != id {
        lemma_joint_delta_bounded(deltas.drop_first(), id, max_abs);
    }
}

/// When the current pose lies within the arm's limits, one step moves no
/// joint by more than the rate limit, and keeps the joints and their order.
pub proof fn step_respects_rate_limit(
    joints: Seq<JointLimit>,
    current: Seq<JointCommand>,
    reached: bool,
    deltas: Seq<(JointId, i64)>,
    max_abs: i32,
)
    requires
        validation(joints, current) is Ok,
    ensures
        ({
            let next = next_commands(joints, current, reached, deltas, max_abs);
            &&& next.len() == current.len()
            &&& forall|i: int|
                0 <= i < current.len() ==> {
                    &&& (#[trigger] next[i]).id == current[i].id
                    &&& -rate_limit(max_abs) <= next[i].pulse.0 - current[i].pulse.0 <= rate_limit(max_abs)
                }
        }),
{
    validation_ok_iff_each_command_ok(joints, current);
    let next = next_commands(joints, current, reached, deltas, max_abs);
    assert forall|i: int| 0 <= i < current.len() implies {
        &&& (#[trigger] next[i]).id == current[i].id
        &&& -rate_limit(max_abs) <= next[i].pulse.0 - current[i].pulse.0 <= rate_limit(max_abs)
    } by {
        let c = current[i];
        assert(command_error(joints, c) is None);
        lemma_joint_delta_bounded(deltas, c.id, max_abs);
    }
}

/// A step that found the goal reached leaves a pose within the arm's limits
/// unchanged.
pub proof fn reached_step_holds_valid_pose(
    joints: Seq<JointLimit>,
    current: Seq<JointCommand>,
    deltas: Seq<(JointId, i64)>,
    max_abs: i32,
)
    requires
        validation(joints, current) is Ok,
    ensures
        next_commands(joints, current, true, deltas, max_abs) == current,
{
    clamp_keeps_valid_pose(joints, current);
}

/// Every step from a pose whose joints all belong to the arm yields a pose
/// that validates against the arm.
pub proof fn step_yields_valid_pose(
    joints: Seq<JointLimit>,
    current: Seq<JointCommand>,
    reached: bool,
    deltas: Seq<(JointId, i64)>,
    max_abs: i32,
)
    requires
        valid_arm(joints),
        forall|i: int| 0 <= i < current.len() ==> first_limit(joints, #[trigger] current[i].id) is Some,
    ensures
        validation(joints, next_commands(joints, current, reached, deltas, max_abs)) is Ok,
{
    if reached {
        clamped_pose_validates(joints, current);
    } else {
        let moved = current.map_values(|c: JointCommand| moved_command(deltas, max_abs, c));
        assert forall|i: int| 0 <= i < moved.len() implies first_limit(joints, #[trigger] moved[i].id) is Some by {
            assert(moved[i].id == current[i].id);
        }
        clamped_pose_validates(joints, moved);
        assert(moved.map_values(|c: JointCommand| clamp_command(joints, c)) =~= next_commands(
            joints,
            current,
            reached,
            deltas,
            max_abs,
        ));
    }
}

/// The rate limit keeps a change that is within `max_abs` either way and
/// cuts a larger one to `max_abs` with its sign; a limit that is not positive
/// allows no change. Saturation keeps a pulse that fits in `0..=65535` and
/// otherwise gives the nearer end.
pub proof fn limit_and_saturation_laws(delta: i64, max_abs: i32, pulse: Pulse, change: int)
    ensures
        max_abs > 0 && -max_abs <= delta <= max_abs ==> limited(delta, max_abs) == delta,
        max_abs > 0 && delta > max_abs ==> limited(delta, max_abs) == max_abs,
        max_abs > 0 && delta < -max_abs ==> limited(delta, max_abs) == -max_abs,
        max_abs <= 0 ==> limited(delta, max_abs) == 0,
        0 <= pulse.0 + change <= 65535 ==> shifted(pulse, change).0 == pulse.0 + change,
        pulse.0 + change < 0 ==> shifted(pulse, change).0 == 0,
        pulse.0 + change > 65535 ==> shifted(pulse, change).0 == 65535,
{
}

proof fn lemma_joint_delta_first_entry(deltas: Seq<(JointId, i64)>, id: JointId, max_abs: i32, k: int)
    requires
        0 <= k < deltas.len(),
        deltas[k].0 == id,
        forall|q: int| 0 <= q < k ==> deltas[q].0 != id,
    ensures
        joint_delta(deltas, id, max_abs) == limited(deltas[k].1, max_abs),
    decreases k,
{
    if k > 0 {
        assert(deltas[0].0 != id);
        let rest = deltas.drop_first();
        assert(rest[k - 1] == deltas[k]);
        assert forall|q: int| 0 <= q < k - 1 implies rest[q].0 != id by {
            assert(rest[q] == deltas[q + 1]);
        }
        lemma_joint_delta_first_entry(rest, id, max_abs, k - 1);
    }
}

proof fn lemma_joint_delta_no_entry(deltas: Seq<(JointId, i64)>, id: JointId, max_abs: i32)
    requires
        forall|q: int| 0 <= q < deltas.len() ==> deltas[q].0 != id,
    ensures
        joint_delta(deltas, id, max_abs) == 0,
    decreases deltas.len(),
{
    if deltas.len() > 0 {
        let rest = deltas.drop_first();
        assert forall|q: int| 0 <= q < rest.len() implies rest[q].0 != id by {
            assert(rest[q] == deltas[q + 1]);
        }
        lemma_joint_delta_no_entry(rest, id, max_abs);
    }
}

/// In a step that did not reach the goal, joint `current[i]` (whose limit in
/// an arm of distinct ids is `joints[j]`) moves by the change of the first
/// entry `deltas[k]` for it, cut to at most `max_abs` either way (to nothing
/// when `max_abs` is not positive), saturated to `0..=65535`, then clamped to
/// `joints[j]`. When that change is within the rate limit and lands inside the
/// limit, the new pulse is exactly the old one plus the change.
pub proof fn step_moves_joint_by_first_limited_change(
    joints: Seq<JointLimit>,
    current: Seq<JointCommand>,
    deltas: Seq<(JointId, i64)>,
    max_abs: i32,
    i: int,
    j: int,
    k: int,
)
    requires
        forall|a: int, b: int| 0 <= a < b < joints.len() ==> #[trigger] joints[a].id != #[trigger] joints[b].id,
        0 <= i < current.len(),
        0 <= j < joints.len(),
        joints[j].id == current[i].id,
        joints[j].min.0 <= joints[j].max.0,
        0 <= k < deltas.len(),
        deltas[k].0 == current[i].id,
        forall|q: int| 0 <= q < k ==> deltas[q].0 != current[i].id,
    ensures
        ({
            let m: int = if max_abs > 0 { max_abs as int } else { 0 };
            let d = deltas[k].1 as int;
            let change: int = if d < -m { -m } else if d > m { m } else { d };
            let raw = current[i].pulse.0 + change;
            let moved: int = if raw < 0 { 0 } else if raw > 65535 { 65535 } else { raw };
            let lo = joints[j].min.0 as int;
            let hi = joints[j].max.0 as int;
            let clamped: int = if moved < lo { lo } else if moved > hi { hi } else { moved };
            let next = next_commands(joints, current, false, deltas, max_abs);
            &&& next.len() == current.len()
            &&& next[i].id == current[i].id
            &&& next[i].pulse.0 == clamped
            &&& (-m <= d <= m && lo <= current[i].pulse.0 + d <= hi) ==> next[i].pulse.0 == current[i].pulse.0 + d
        }),
{
    first_limit_of_own_id(joints, j);
    lemma_joint_delta_first_entry(deltas, current[i].id, max_abs, k);
}

/// In a step that did not reach the goal, a joint with no entry in `deltas`
/// does not move, apart from being clamped to its limit.
pub proof fn step_keeps_joint_without_change(
    joints: Seq<JointLimit>,
    current: Seq<JointCommand>,
    deltas: Seq<(JointId, i64)>,
    max_abs: i32,
    i: int,
    j: int,
)
    requires
        forall|a: int, b: int| 0 <= a < b < joints.len() ==> #[trigger] joints[a].id != #[trigger] joints[b].id,
        0 <= i < current.len(),
        0 <= j < joints.len(),
        joints[j].id == current[i].id,
        joints[j].min.0 <= current[i].pulse.0 <= joints[j].max.0,
        forall|q: int| 0 <= q < deltas.len() ==> deltas[q].0 != current[i].id,
    ensures
        next_commands(joints, current, false, deltas, max_abs)[i] == current[i],
{
    first_limit_of_own_id(joints, j);
    lemma_joint_delta_no_entry(deltas, current[i].id, max_abs);
}

} // verus!
