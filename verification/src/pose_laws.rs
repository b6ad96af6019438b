//! Properties of joint limits and poses that hold across the operations of
//! `arm`.

use vstd::prelude::*;
use crate::arm::{
    clamp_command, command_error, first_limit, first_pulse, limits_well_formed, ids_distinct, lemma_first_limit_member, neutral_command, validation,
    valid_arm, ArmPoseError, JointCommand, JointId, JointLimit, Pulse,
};

verus! {

/// Clamping a pulse to a limit whose range is not empty always yields a pulse
/// that the limit contains.
pub proof fn clamp_stays_within_limit(limit: JointLimit, pulse: Pulse)
    requires
        limit.ordered(),
    ensures
        limit.spec_contains(limit.spec_clamp(pulse)),
{
}

/// Clamping leaves a pulse that the limit already contains unchanged.
pub proof fn clamp_keeps_contained_pulse(limit: JointLimit, pulse: Pulse)
    requires
        limit.spec_contains(pulse),
    ensures
        limit.spec_clamp(pulse) == pulse,
{
}

/// A pose validates exactly when no single command of it is refused.
pub proof fn validation_ok_iff_each_command_ok(joints: Seq<JointLimit>, cmds: Seq<JointCommand>)
    ensures
        validation(joints, cmds) is Ok <==> forall|i: int|
            0 <= i < cmds.len() ==> command_error(joints, #[trigger] cmds[i]) is None,
    decreases cmds.len(),
{
    if cmds.len() > 0 {
        validation_ok_iff_each_command_ok(joints, cmds.drop_first());
        if validation(joints, cmds) is Ok {
            assert forall|i: int| 0 <= i < cmds.len() implies command_error(
                joints,
                #[trigger] cmds[i],
            ) is None by {
                if i > 0 {
                    assert(cmds[i] == cmds.drop_first()[i - 1]);
                }
            }
        } else if command_error(joints, cmds[0]) is None {
            let k = choose|k: int|
                0 <= k < cmds.len() - 1 && command_error(joints, #[trigger] cmds.drop_first()[k]) is Some;
            assert(cmds.drop_first()[k] == cmds[k + 1]);
        }
    }
}

/// In an arm with no id twice, looking up a joint's own id finds that joint.
pub proof fn first_limit_of_own_id(joints: Seq<JointLimit>, k: int)
    requires
        ids_distinct(joints),
        0 <= k < joints.len(),
    ensures
        first_limit(joints, joints[k].id) == Some(joints[k]),
    decreases k,
{
    if k > 0 {
        assert(joints[0].id != joints[k].id);
        assert(joints.drop_first()[k - 1] == joints[k]);
        assert forall|i: int, j: int| 0 <= i < j < joints.drop_first().len() implies #[trigger] joints.drop_first()[i].id
            != #[trigger] joints.drop_first()[j].id by {
            assert(joints.drop_first()[i] == joints[i + 1]);
            assert(joints.drop_first()[j] == joints[j + 1]);
        }
        first_limit_of_own_id(joints.drop_first(), k - 1);
    }
}

/// The neutral pose of every arm validates against that arm.
pub proof fn neutral_pose_validates(joints: Seq<JointLimit>)
    requires
        valid_arm(joints),
    ensures
        validation(joints, joints.map_values(|j: JointLimit| neutral_command(j))) is Ok,
{
    let cmds = joints.map_values(|j: JointLimit| neutral_command(j));
    assert forall|i: int| 0 <= i < cmds.len() implies command_error(joints, #[trigger] cmds[i]) is None by {
        first_limit_of_own_id(joints, i);
        assert(joints[i].well_formed());
    }
    validation_ok_iff_each_command_ok(joints, cmds);
}

/// Clamping a pose whose joints all belong to the arm yields a pose that
/// validates.
pub proof fn clamped_pose_validates(joints: Seq<JointLimit>, cmds: Seq<JointCommand>)
    requires
        valid_arm(joints),
        forall|i: int| 0 <= i < cmds.len() ==> first_limit(joints, #[trigger] cmds[i].id) is Some,
    ensures
        validation(joints, cmds.map_values(|c: JointCommand| clamp_command(joints, c))) is Ok,
{
    let out = cmds.map_values(|c: JointCommand| clamp_command(joints, c));
    assert forall|i: int| 0 <= i < out.len() implies command_error(joints, #[trigger] out[i]) is None by {
        lemma_first_limit_member(joints, cmds[i].id);
        let l = first_limit(joints, cmds[i].id)->Some_0;
        let k = choose|k: int| 0 <= k < joints.len() && joints[k] == l;
        assert(joints[k].well_formed());
    }
    validation_ok_iff_each_command_ok(joints, out);
}

/// Clamping leaves a pose that already validates unchanged.
pub proof fn clamp_keeps_valid_pose(joints: Seq<JointLimit>, cmds: Seq<JointCommand>)
    requires
        validation(joints, cmds) is Ok,
    ensures
        cmds.map_values(|c: JointCommand| clamp_command(joints, c)) == cmds,
{
    validation_ok_iff_each_command_ok(joints, cmds);
    let out = cmds.map_values(|c: JointCommand| clamp_command(joints, c));
    assert forall|i: int| 0 <= i < cmds.len() implies out[i] == cmds[i] by {
        assert(command_error(joints, cmds[i]) is None);
    }
    assert(out =~= cmds);
}

/// Clamping twice gives the same pose as clamping once.
pub proof fn clamp_pose_idempotent(joints: Seq<JointLimit>, cmds: Seq<JointCommand>)
    requires
        valid_arm(joints),
    ensures
        ({
            let once = cmds.map_values(|c: JointCommand| clamp_command(joints, c));
            once.map_values(|c: JointCommand| clamp_command(joints, c)) == once
        }),
{
    let once = cmds.map_values(|c: JointCommand| clamp_command(joints, c));
    let twice = once.map_values(|c: JointCommand| clamp_command(joints, c));
    assert forall|i: int| 0 <= i < once.len() implies twice[i] == once[i] by {
        lemma_first_limit_member(joints, cmds[i].id);
        if let Some(l) = first_limit(joints, cmds[i].id) {
            let k = choose|k: int| 0 <= k < joints.len() && joints[k] == l;
            assert(joints[k].well_formed());
        }
    }
    assert(twice =~= once);
}

/// Looking a joint up in a pose finds the pulse of the first command for
/// that joint, wherever it stands and whatever ids come before it; a pose
/// without a command for the joint gives nothing.
pub proof fn get_finds_first_command_for_joint(cmds: Seq<JointCommand>, id: JointId)
    ensures
        forall|k: int|
            0 <= k < cmds.len() && cmds[k].id == id && (forall|j: int| 0 <= j < k ==> cmds[j].id != id)
                ==> first_pulse(cmds, id) == Some(#[trigger] cmds[k].pulse),
        (forall|k: int| 0 <= k < cmds.len() ==> cmds[k].id != id) ==> first_pulse(cmds, id) is None,
    decreases cmds.len(),
{
    if cmds.len() > 0 {
        let rest = cmds.drop_first();
        get_finds_first_command_for_joint(rest, id);
        assert forall|k: int|
            0 <= k < cmds.len() && cmds[k].id == id && (forall|j: int| 0 <= j < k ==> cmds[j].id != id)
                implies first_pulse(cmds, id) == Some(#[trigger] cmds[k].pulse) by {
            if k > 0 {
                assert(cmds[0].id != id);
                assert(rest[k - 1] == cmds[k]);
                assert forall|j: int| 0 <= j < k - 1 implies rest[j].id != id by {
                    assert(rest[j] == cmds[j + 1]);
                }
            }
        }
        if forall|k: int| 0 <= k < cmds.len() ==> cmds[k].id != id {
            assert forall|k: int| 0 <= k < rest.len() implies rest[k].id != id by {
                assert(rest[k] == cmds[k + 1]);
            }
        }
    }
}

/// Looking a joint's limit up finds the first limit for that joint, wherever
/// it stands; a list without one gives nothing.
pub proof fn limit_lookup_finds_first_limit_for_joint(joints: Seq<JointLimit>, id: JointId)
    ensures
        forall|k: int|
            0 <= k < joints.len() && joints[k].id == id && (forall|j: int| 0 <= j < k ==> joints[j].id != id)
                ==> first_limit(joints, id) == Some(#[trigger] joints[k]),
        (forall|k: int| 0 <= k < joints.len() ==> joints[k].id != id) ==> first_limit(joints, id) is None,
    decreases joints.len(),
{
    if joints.len() > 0 {
        let rest = joints.drop_first();
        limit_lookup_finds_first_limit_for_joint(rest, id);
        assert forall|k: int|
            0 <= k < joints.len() && joints[k].id == id && (forall|j: int| 0 <= j < k ==> joints[j].id != id)
                implies first_limit(joints, id) == Some(#[trigger] joints[k]) by {
            if k > 0 {
                assert(joints[0].id != id);
                assert(rest[k - 1] == joints[k]);
                assert forall|j: int| 0 <= j < k - 1 implies rest[j].id != id by {
                    assert(rest[j] == joints[j + 1]);
                }
            }
        }
        if forall|k: int| 0 <= k < joints.len() ==> joints[k].id != id {
            assert forall|k: int| 0 <= k < rest.len() implies rest[k].id != id by {
                assert(rest[k] == joints[k + 1]);
            }
        }
    }
}

/// The joints that `RobotArmSpec::new` accepts are exactly those where every
/// limit has `min <= neutral <= max` (any values, the full `u16` range
/// included) and no two joints share an id.
pub proof fn accepted_joints_are_exactly_ordered_and_distinct(joints: Seq<JointLimit>)
    ensures
        limits_well_formed(joints) <==> forall|i: int|
            0 <= i < joints.len() ==> (#[trigger] joints[i]).min.0 <= joints[i].neutral.0
                && joints[i].neutral.0 <= joints[i].max.0,
        ids_distinct(joints) <==> forall|i: int, j: int|
            0 <= i < joints.len() && 0 <= j < joints.len() && i != j ==> #[trigger] joints[i].id
                != #[trigger] joints[j].id,
        valid_arm(joints) <==> (limits_well_formed(joints) && ids_distinct(joints)),
{
    if ids_distinct(joints) {
        assert forall|i: int, j: int|
            0 <= i < joints.len() && 0 <= j < joints.len() && i != j implies #[trigger] joints[i].id
                != #[trigger] joints[j].id by {
            if j < i {
                assert(joints[j].id != joints[i].id);
            }
        }
    }
}

/// Clamping picks the pulse itself when the limit contains it, and otherwise
/// the nearer bound: `min` below the range, `max` above it.
pub proof fn clamp_picks_pulse_or_nearer_bound(limit: JointLimit, pulse: Pulse)
    requires
        limit.min.0 <= limit.max.0,
    ensures
        limit.min.0 <= pulse.0 <= limit.max.0 ==> limit.spec_clamp(pulse) == pulse,
        pulse.0 < limit.min.0 ==> limit.spec_clamp(pulse) == limit.min,
        pulse.0 > limit.max.0 ==> limit.spec_clamp(pulse) == limit.max,
        limit.spec_contains(pulse) <==> limit.min.0 <= pulse.0 <= limit.max.0,
{
}

/// A command is refused when no joint of the arm has its id, or when its
/// pulse lies outside that joint's `min..=max`; the error names the command
/// and, for a pulse out of range, the joint's bounds.
pub proof fn command_refused_for_unknown_joint_or_pulse_out_of_range(
    joints: Seq<JointLimit>,
    c: JointCommand,
    j: int,
)
    requires
        ids_distinct(joints),
    ensures
        (forall|q: int| 0 <= q < joints.len() ==> joints[q].id != c.id) ==> command_error(joints, c) == Some(
            ArmPoseError::UnknownJoint(c.id),
        ),
        0 <= j < joints.len() && joints[j].id == c.id ==> {
            &&& (joints[j].min.0 <= c.pulse.0 <= joints[j].max.0) ==> command_error(joints, c) is None
            &&& !(joints[j].min.0 <= c.pulse.0 <= joints[j].max.0) ==> command_error(joints, c) == Some(
                ArmPoseError::PulseOutOfRange { id: c.id, pulse: c.pulse, min: joints[j].min, max: joints[j].max },
            )
        },
{
    limit_lookup_finds_first_limit_for_joint(joints, c.id);
    if 0 <= j < joints.len() && joints[j].id == c.id {
        first_limit_of_own_id(joints, j);
    }
}

/// Validation stops at the first refused command and reports its error.
pub proof fn validation_reports_first_refused_command(joints: Seq<JointLimit>, cmds: Seq<JointCommand>, k: int)
    requires
        0 <= k < cmds.len(),
        command_error(joints, cmds[k]) is Some,
        forall|q: int| 0 <= q < k ==> command_error(joints, #[trigger] cmds[q]) is None,
    ensures
        validation(joints, cmds) == Err::<(), ArmPoseError>(command_error(joints, cmds[k])->Some_0),
    decreases k,
{
    if k > 0 {
        let rest = cmds.drop_first();
        assert(command_error(joints, cmds[0]) is None);
        assert(rest[k - 1] == cmds[k]);
        assert forall|q: int| 0 <= q < k - 1 implies command_error(joints, #[trigger] rest[q]) is None by {
            assert(rest[q] == cmds[q + 1]);
        }
        validation_reports_first_refused_command(joints, rest, k - 1);
    }
}

/// The neutral pose holds each joint, in the arm's order, at its neutral
/// pulse.
pub proof fn neutral_pose_holds_each_joint_at_neutral(joints: Seq<JointLimit>)
    ensures
        ({
            let p = joints.map_values(|j: JointLimit| neutral_command(j));
            &&& p.len() == joints.len()
            &&& forall|i: int|
                0 <= i < joints.len() ==> (#[trigger] p[i]).id == joints[i].id && p[i].pulse == joints[i].neutral
        }),
{
}

/// Clamping a pose keeps each command's joint; a command for joint
/// `joints[j]` of an arm with distinct ids gets its pulse limited to
/// `joints[j].min..=joints[j].max`, and a command for a joint the arm does not
/// have passes unchanged.
pub proof fn clamp_pose_limits_known_and_passes_unknown(joints: Seq<JointLimit>, cmds: Seq<JointCommand>, i: int, j: int)
    requires
        ids_distinct(joints),
        0 <= i < cmds.len(),
    ensures
        ({
            let out = cmds.map_values(|c: JointCommand| clamp_command(joints, c));
            let p = cmds[i].pulse.0;
            &&& out.len() == cmds.len()
            &&& out[i].id == cmds[i].id
            &&& (0 <= j < joints.len() && joints[j].id == cmds[i].id) ==> out[i].pulse.0 == (if p < joints[j].min.0 {
                joints[j].min.0
            } else if p > joints[j].max.0 {
                joints[j].max.0
            } else {
                p
            })
            &&& (forall|q: int| 0 <= q < joints.len() ==> joints[q].id != cmds[i].id) ==> out[i] == cmds[i]
        }),
{
    limit_lookup_finds_first_limit_for_joint(joints, cmds[i].id);
    if 0 <= j < joints.len() && joints[j].id == cmds[i].id {
        first_limit_of_own_id(joints, j);
    }
}

} // verus!
