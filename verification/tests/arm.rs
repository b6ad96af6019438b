use toy_robot_arm::arm::{
    ArmPose, ArmPoseError, ArmSpecError, JointCommand, JointId, JointLimit, Pulse, RobotArmSpec,
};

fn limit(id: u8, min: u16, neutral: u16, max: u16) -> JointLimit {
    JointLimit { id: JointId(id), min: Pulse(min), neutral: Pulse(neutral), max: Pulse(max) }
}

#[test]
fn neutral_pose_validates() {
    let spec = RobotArmSpec::lewansoul_learm_provisional();

    assert_eq!(spec.validate_pose(&spec.neutral_pose()), Ok(()));
}

#[test]
fn clamp_pose_limits_each_known_joint() {
    let spec = RobotArmSpec::lewansoul_learm_provisional();
    let pose = ArmPose::new(vec![JointCommand::new(1, 100), JointCommand::new(2, 9999)]);

    let clamped = spec.clamp_pose(&pose);

    assert_eq!(clamped.get(JointId(1)), Some(Pulse(1100)));
    assert_eq!(clamped.get(JointId(2)), Some(Pulse(1900)));
}

#[test]
fn provisional_spec_includes_six_controller_channels() {
    let spec = RobotArmSpec::lewansoul_learm_provisional();

    assert_eq!(spec.joints().len(), 6);
    assert!(spec.limit_for(JointId(6)).is_some());
}

#[test]
fn provisional_spec_channels_are_one_to_six_at_1100_1500_1900() {
    let spec = RobotArmSpec::lewansoul_learm_provisional();
    for (i, j) in spec.joints().iter().enumerate() {
        assert_eq!(*j, limit(i as u8 + 1, 1100, 1500, 1900));
    }
    assert_eq!(spec.limit_for(JointId(7)), None);
    assert_eq!(spec.limit_for(JointId(0)), None);
}

#[test]
fn new_rejects_inverted_limits() {
    assert_eq!(
        RobotArmSpec::new(vec![limit(1, 1100, 1500, 1900), limit(2, 1600, 1500, 1900)]).unwrap_err(),
        ArmSpecError::InvalidLimits
    );
    assert_eq!(
        RobotArmSpec::new(vec![limit(1, 1100, 2000, 1900)]).unwrap_err(),
        ArmSpecError::InvalidLimits
    );
}

#[test]
fn new_rejects_duplicate_ids() {
    assert_eq!(
        RobotArmSpec::new(vec![limit(3, 1100, 1500, 1900), limit(4, 1000, 1500, 2000), limit(3, 900, 1000, 1100)])
            .unwrap_err(),
        ArmSpecError::DuplicateJointId
    );
}

#[test]
fn new_checks_limits_before_ids() {
    assert_eq!(
        RobotArmSpec::new(vec![limit(3, 1100, 1500, 1900), limit(3, 1600, 1500, 1900)]).unwrap_err(),
        ArmSpecError::InvalidLimits
    );
}

#[test]
fn new_accepts_empty_and_degenerate_limits() {
    assert_eq!(RobotArmSpec::new(vec![]).unwrap().joints().len(), 0);
    let spec = RobotArmSpec::new(vec![limit(9, 1500, 1500, 1500)]).unwrap();
    assert_eq!(spec.joints(), &[limit(9, 1500, 1500, 1500)]);
}

#[test]
fn joint_limit_contains_and_clamp() {
    let l = limit(1, 1100, 1500, 1900);
    assert!(l.contains(Pulse(1100)));
    assert!(l.contains(Pulse(1900)));
    assert!(!l.contains(Pulse(1099)));
    assert!(!l.contains(Pulse(1901)));
    assert_eq!(l.clamp(Pulse(0)), Pulse(1100));
    assert_eq!(l.clamp(Pulse(65535)), Pulse(1900));
    assert_eq!(l.clamp(Pulse(1234)), Pulse(1234));
}

#[test]
fn clamped_pulse_is_always_contained() {
    let l = limit(1, 1100, 1500, 1900);
    for p in [0u16, 1, 1099, 1100, 1500, 1900, 1901, 40000, 65535] {
        assert!(l.contains(l.clamp(Pulse(p))));
    }
}

#[test]
fn clamp_pose_passes_unknown_joints_and_keeps_order() {
    let spec = RobotArmSpec::lewansoul_learm_provisional();
    let pose = ArmPose::new(vec![
        JointCommand::new(9, 5),
        JointCommand::new(3, 2000),
        JointCommand::new(1, 1200),
    ]);
    let clamped = spec.clamp_pose(&pose);
    assert_eq!(
        clamped.commands(),
        &[JointCommand::new(9, 5), JointCommand::new(3, 1900), JointCommand::new(1, 1200)]
    );
    assert_eq!(spec.clamp_pose(&clamped), clamped);
}

#[test]
fn validate_pose_reports_first_error() {
    let spec = RobotArmSpec::lewansoul_learm_provisional();
    let pose = ArmPose::new(vec![JointCommand::new(1, 1500), JointCommand::new(2, 2000), JointCommand::new(8, 1500)]);
    assert_eq!(
        spec.validate_pose(&pose),
        Err(ArmPoseError::PulseOutOfRange {
            id: JointId(2),
            pulse: Pulse(2000),
            min: Pulse(1100),
            max: Pulse(1900),
        })
    );
    let pose = ArmPose::new(vec![JointCommand::new(8, 1500), JointCommand::new(2, 2000)]);
    assert_eq!(spec.validate_pose(&pose), Err(ArmPoseError::UnknownJoint(JointId(8))));
    assert_eq!(spec.validate_pose(&ArmPose::new(vec![])), Ok(()));
}

#[test]
fn clamped_known_pose_validates() {
    let spec = RobotArmSpec::lewansoul_learm_provisional();
    let pose = ArmPose::new(vec![JointCommand::new(4, 0), JointCommand::new(5, 3000), JointCommand::new(6, 1700)]);
    assert!(spec.validate_pose(&pose).is_err());
    assert_eq!(spec.validate_pose(&spec.clamp_pose(&pose)), Ok(()));
}

#[test]
fn get_returns_first_command_for_joint() {
    let pose = ArmPose::new(vec![JointCommand::new(2, 1400), JointCommand::new(2, 1600)]);
    assert_eq!(pose.get(JointId(2)), Some(Pulse(1400)));
    assert_eq!(pose.get(JointId(1)), None);
}

#[test]
fn neutral_pose_follows_joint_order() {
    let spec = RobotArmSpec::new(vec![limit(5, 1000, 1200, 1300), limit(2, 900, 950, 2000)]).unwrap();
    assert_eq!(
        spec.neutral_pose().commands(),
        &[JointCommand::new(5, 1200), JointCommand::new(2, 950)]
    );
    assert_eq!(spec.validate_pose(&spec.neutral_pose()), Ok(()));
}

#[test]
fn map_pulses_applies_function_in_order() {
    let pose = ArmPose::new(vec![JointCommand::new(1, 10), JointCommand::new(2, 20)]);
    let doubled = pose.map_pulses(|c| JointCommand { id: c.id, pulse: Pulse(c.pulse.0 * 2) });
    assert_eq!(doubled.commands(), &[JointCommand::new(1, 20), JointCommand::new(2, 40)]);
}

#[test]
fn constructors_hold_their_values() {
    assert_eq!(Pulse::new(1500), Pulse(1500));
    assert_eq!(JointCommand::new(3, 1234), JointCommand { id: JointId(3), pulse: Pulse(1234) });
}
