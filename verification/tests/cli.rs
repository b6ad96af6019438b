use toy_robot_arm::arm::JointCommand;
use toy_robot_arm::cli::{format_commands, parse_joint_command, parse_u16, run_frame, FrameCommandError};
use toy_robot_arm::transport::TransportError;

fn words(ws: &[&str]) -> Vec<String> {
    ws.iter().map(|w| w.to_string()).collect()
}

#[test]
fn parse_u16_reads_decimal() {
    assert_eq!(parse_u16("1500", "pulse"), Ok(1500));
    assert_eq!(parse_u16("+7", "pulse"), Ok(7));
    assert_eq!(parse_u16("0065535", "pulse"), Ok(65535));
    assert_eq!(parse_u16("0", "pulse"), Ok(0));
}

#[test]
fn parse_u16_rejects_non_u16() {
    for w in ["", "+", "-1", "65536", "12a", " 1", "1.5", "99999999999999999999"] {
        assert_eq!(parse_u16(w, "pulse"), Err(format!("pulse '{w}' is not a u16")));
        assert!(w.parse::<u16>().is_err());
    }
}

#[test]
fn parse_u16_agrees_with_std() {
    for w in ["1", "+1", "00", "255", "65535", "65536", "+", "++1", "-0", "٣"] {
        assert_eq!(parse_u16(w, "x").ok(), w.parse::<u16>().ok());
    }
}

#[test]
fn parse_joint_command_reads_id_and_pulse() {
    assert_eq!(parse_joint_command("1:1500"), Ok(JointCommand::new(1, 1500)));
    assert_eq!(parse_joint_command("300:1500"), Ok(JointCommand::new(44, 1500)));
}

#[test]
fn parse_joint_command_errors() {
    assert_eq!(
        parse_joint_command("1500"),
        Err("joint command '1500' must look like id:pulse".to_string())
    );
    assert_eq!(parse_joint_command("x:y"), Err("servo id 'x' is not a u16".to_string()));
    assert_eq!(parse_joint_command("1:2:3"), Err("pulse '2:3' is not a u16".to_string()));
    assert_eq!(parse_joint_command(":5"), Err("servo id '' is not a u16".to_string()));
}

#[test]
fn run_frame_readme_example() {
    assert_eq!(
        run_frame(&words(&["--ms", "750", "1:1500", "2:1450", "3:1600"])),
        Ok("55 55 0E 03 03 EE 02 01 DC 05 02 AA 05 03 40 06".to_string())
    );
}

#[test]
fn run_frame_default_duration_and_last_ms_wins() {
    assert_eq!(
        run_frame(&words(&["1:1500", "2:1600"])),
        Ok("55 55 0B 03 02 E8 03 01 DC 05 02 40 06".to_string())
    );
    assert_eq!(
        run_frame(&words(&["--ms", "1", "1:1500", "--ms", "1000", "2:1600"])),
        Ok("55 55 0B 03 02 E8 03 01 DC 05 02 40 06".to_string())
    );
}

#[test]
fn run_frame_errors() {
    assert_eq!(
        run_frame(&words(&["1:1500", "--ms"])),
        Err(FrameCommandError::Argument("--ms requires a value".to_string()))
    );
    assert_eq!(
        run_frame(&words(&["--ms", "abc"])),
        Err(FrameCommandError::Argument("duration ms 'abc' is not a u16".to_string()))
    );
    assert_eq!(
        run_frame(&words(&["oops"])),
        Err(FrameCommandError::Argument("joint command 'oops' must look like id:pulse".to_string()))
    );
    assert_eq!(
        run_frame(&words(&[])),
        Err(FrameCommandError::Encode(TransportError::InvalidCommand(
            "servo move requires at least one command".to_string()
        )))
    );
    assert_eq!(
        run_frame(&words(&["1:3000"])),
        Err(FrameCommandError::Encode(TransportError::InvalidCommand(
            "pulse 3000 exceeds 2500".to_string()
        )))
    );
}

#[test]
fn format_commands_lists_id_and_pulse() {
    assert_eq!(format_commands(&[]), "");
    assert_eq!(
        format_commands(&[JointCommand::new(1, 1540), JointCommand::new(12, 0)]),
        "1:1540, 12:0"
    );
}

#[test]
fn formatted_commands_split_and_read_back() {
    let cmds = [JointCommand::new(1, 1540), JointCommand::new(255, 0), JointCommand::new(3, 65535)];
    let text = format_commands(&cmds);
    let back: Vec<_> = text.split(", ").map(parse_joint_command).collect();
    assert_eq!(back, cmds.iter().map(|c| Ok(*c)).collect::<Vec<_>>());
}
