use toy_robot_arm::arm::{ArmPose, JointCommand, JointId, Pulse, RobotArmSpec};
use toy_robot_arm::control::{add_delta, limited_delta, moves_fit, next_servo_pose};

#[test]
fn next_pose_moves_within_rate_limit() {
    let spec = RobotArmSpec::lewansoul_learm_provisional();
    let pose = spec.neutral_pose();
    // error (0.5, 0.0, -0.2) m with the default gains, rounded
    let deltas = [(JointId(1), 225i64), (JointId(2), 130), (JointId(3), -100), (JointId(4), 0)];

    let next = next_servo_pose(&spec, &pose, false, &deltas, 40);

    assert_eq!(next.get(JointId(1)), Some(Pulse(1540)));
    assert_eq!(next.get(JointId(2)), Some(Pulse(1540)));
    assert_eq!(next.get(JointId(3)), Some(Pulse(1460)));
    assert_eq!(next.get(JointId(4)), Some(Pulse(1500)));
    assert_eq!(next.get(JointId(5)), Some(Pulse(1500)));
}

#[test]
fn next_pose_holds_pose_when_reached() {
    let spec = RobotArmSpec::lewansoul_learm_provisional();
    let pose = spec.neutral_pose();
    let deltas = [(JointId(1), 900i64)];
    assert_eq!(next_servo_pose(&spec, &pose, true, &deltas, 40), pose);
}

#[test]
fn next_pose_is_clamped_to_limits() {
    let spec = RobotArmSpec::lewansoul_learm_provisional();
    let pose = ArmPose::new(vec![JointCommand::new(1, 1890), JointCommand::new(2, 1000)]);
    let deltas = [(JointId(1), 50i64), (JointId(2), -50), (JointId(1), -50)];
    let next = next_servo_pose(&spec, &pose, false, &deltas, 40);
    assert_eq!(next.commands(), &[JointCommand::new(1, 1900), JointCommand::new(2, 1100)]);
}

#[test]
fn negative_rate_limit_moves_nothing() {
    let spec = RobotArmSpec::lewansoul_learm_provisional();
    let pose = spec.neutral_pose();
    let deltas = [(JointId(1), 225i64)];
    assert_eq!(next_servo_pose(&spec, &pose, false, &deltas, -5), pose);
}

#[test]
fn limited_delta_clamps_to_rate_limit() {
    assert_eq!(limited_delta(225, 40), 40);
    assert_eq!(limited_delta(-225, 40), -40);
    assert_eq!(limited_delta(17, 40), 17);
    assert_eq!(limited_delta(17, -3), 0);
    assert_eq!(limited_delta(i64::MIN, i32::MAX), -i32::MAX);
    assert_eq!(limited_delta(i64::MAX, i32::MAX), i32::MAX);
}

#[test]
fn add_delta_saturates() {
    assert_eq!(add_delta(Pulse(1500), 40), Pulse(1540));
    assert_eq!(add_delta(Pulse(10), -40), Pulse(0));
    assert_eq!(add_delta(Pulse(65530), 40), Pulse(65535));
}

#[test]
fn moves_fit_detects_overflow() {
    let pose = ArmPose::new(vec![JointCommand::new(1, 65535)]);
    assert!(moves_fit(&pose, &[(JointId(1), i64::MAX)], 40));
    assert!(!moves_fit(&pose, &[(JointId(1), i64::MAX)], i32::MAX));
    assert!(moves_fit(&pose, &[(JointId(2), i64::MAX)], i32::MAX));
}
