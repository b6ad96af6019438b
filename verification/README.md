# toy_robot_arm

Control core for a six-channel LewanSoul/Hiwonder-style toy robot arm, with
its behaviour stated in Verus contracts and proved.

- `src/arm.rs`: joints, limits, poses; `RobotArmSpec` keeps the invariant that
  every limit has `min <= neutral <= max` and no joint id occurs twice.
- `src/pose_laws.rs`: properties across the pose operations (clamped pulses lie
  within limits, the neutral pose validates, clamping is idempotent, ...).
- `src/transport.rs`: the `55 55 LEN 03 COUNT TIME_L TIME_H [ID POS_L POS_H]...`
  servo move frame, its hex text, and frame transports.
- `src/control.rs`: the integer part of a visual-servo step (rate limit,
  saturation, clamp) and its laws.
- `src/cli.rs`: reading `--ms N` and `id:pulse` words into a frame.
- `src/text.rs`: decimal and hex digits as text.
- `app/`: the command-line program, and the floating-point geometry (camera
  triangulation, metric error and distance) that the library does not hold.
