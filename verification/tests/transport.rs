use toy_robot_arm::arm::JointCommand;
use toy_robot_arm::transport::{
    bytes_to_hex, encode_lobot_servo_move, send_servo_move, MockTransport, MoveDurationMs, TransportError,
};

#[test]
fn encodes_common_lobot_move_frame() {
    let frame = encode_lobot_servo_move(
        &[JointCommand::new(1, 1500), JointCommand::new(2, 1600)],
        MoveDurationMs(1000),
    )
    .unwrap();

    assert_eq!(
        bytes_to_hex(&frame),
        "55 55 0B 03 02 E8 03 01 DC 05 02 40 06"
    );
}

#[test]
fn mock_transport_records_frames() {
    let mut transport = MockTransport::default();

    send_servo_move(
        &mut transport,
        &[JointCommand::new(1, 1500)],
        MoveDurationMs(500),
    )
    .unwrap();

    assert_eq!(transport.frames().len(), 1);
}

#[test]
fn mock_transport_records_the_encoded_frame() {
    let mut transport = MockTransport::default();
    let cmds = [JointCommand::new(1, 1500)];
    send_servo_move(&mut transport, &cmds, MoveDurationMs(500)).unwrap();
    send_servo_move(&mut transport, &[JointCommand::new(6, 2500)], MoveDurationMs(0)).unwrap();
    assert_eq!(transport.frames()[0], encode_lobot_servo_move(&cmds, MoveDurationMs(500)).unwrap());
    assert_eq!(transport.frames()[1], vec![0x55, 0x55, 0x08, 0x03, 0x01, 0x00, 0x00, 0x06, 0xC4, 0x09]);
}

#[test]
fn refused_move_leaves_transport_untouched() {
    let mut transport = MockTransport::default();
    let err = send_servo_move(&mut transport, &[], MoveDurationMs(500)).unwrap_err();
    assert_eq!(err, TransportError::InvalidCommand("servo move requires at least one command".to_string()));
    assert_eq!(transport, MockTransport::default());
    assert_eq!(transport.frames().len(), 0);
}

#[test]
fn single_command_frame_bytes() {
    let frame = encode_lobot_servo_move(&[JointCommand::new(3, 0x0934)], MoveDurationMs(0xABCD)).unwrap();
    assert_eq!(frame, vec![0x55, 0x55, 0x08, 0x03, 0x01, 0xCD, 0xAB, 0x03, 0x34, 0x09]);
}

#[test]
fn frame_length_byte_is_length_minus_two() {
    for n in 1..=83usize {
        let cmds: Vec<JointCommand> = (0..n).map(|i| JointCommand::new(i as u8, 1500)).collect();
        let frame = encode_lobot_servo_move(&cmds, MoveDurationMs(100)).unwrap();
        assert_eq!(frame.len(), 3 * n + 7);
        assert_eq!(frame[2] as usize + 2, frame.len());
        assert_eq!(frame[4] as usize, n);
    }
}

#[test]
fn rejects_empty_move() {
    assert_eq!(
        encode_lobot_servo_move(&[], MoveDurationMs(1000)),
        Err(TransportError::InvalidCommand("servo move requires at least one command".to_string()))
    );
}

#[test]
fn rejects_more_than_255_commands() {
    let cmds = vec![JointCommand::new(1, 1500); 256];
    assert_eq!(
        encode_lobot_servo_move(&cmds, MoveDurationMs(1000)),
        Err(TransportError::InvalidCommand("too many servo commands for one frame".to_string()))
    );
}

#[test]
fn rejects_frame_length_overflow() {
    let cmds = vec![JointCommand::new(1, 1500); 84];
    assert_eq!(
        encode_lobot_servo_move(&cmds, MoveDurationMs(1000)),
        Err(TransportError::InvalidCommand("frame length overflow".to_string()))
    );
    let cmds = vec![JointCommand::new(1, 1500); 255];
    assert_eq!(
        encode_lobot_servo_move(&cmds, MoveDurationMs(1000)),
        Err(TransportError::InvalidCommand("frame length overflow".to_string()))
    );
}

#[test]
fn rejects_first_pulse_above_2500() {
    assert_eq!(
        encode_lobot_servo_move(
            &[JointCommand::new(1, 2500), JointCommand::new(2, 2501), JointCommand::new(3, 9000)],
            MoveDurationMs(1000)
        ),
        Err(TransportError::InvalidCommand("pulse 2501 exceeds 2500".to_string()))
    );
    assert_eq!(
        encode_lobot_servo_move(&[JointCommand::new(1, 65535)], MoveDurationMs(1000)),
        Err(TransportError::InvalidCommand("pulse 65535 exceeds 2500".to_string()))
    );
}

#[test]
fn hex_rendering() {
    assert_eq!(bytes_to_hex(&[]), "");
    assert_eq!(bytes_to_hex(&[0x00]), "00");
    assert_eq!(bytes_to_hex(&[0xFF, 0x0A, 0xA0]), "FF 0A A0");
}

#[test]
fn move_duration_new_holds_value() {
    assert_eq!(MoveDurationMs::new(750), MoveDurationMs(750));
}

#[test]
fn mock_send_returns_ok_with_the_recorded_frame() {
    let mut transport = MockTransport::default();
    assert_eq!(send_servo_move(&mut transport, &[JointCommand::new(1, 1500)], MoveDurationMs(500)), Ok(()));
    assert_eq!(transport.frames(), &[vec![0x55, 0x55, 0x08, 0x03, 0x01, 0xF4, 0x01, 0x01, 0xDC, 0x05]]);
}
