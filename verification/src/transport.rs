//! The servo-controller move frame, its hex rendering, and transports that
//! carry frames to the controller.

use vstd::prelude::*;
use vstd::slice::slice_to_vec;
use vstd::string::StringExecFns;
use crate::arm::JointCommand;
use crate::text::{decimal_chars, digit_char, digit_str, hex_byte_chars, push_decimal};

verus! {

/// Why a frame was not built or not sent.
#[derive(Debug, Clone, PartialEq, Eq)]
pub enum TransportError {
    WriteFailed(String),
    InvalidCommand(String),
}

/// A way of handing a frame to the servo controller.
pub trait ServoTransport {
    /// Every frame offered to this transport so far, oldest first, with what
    /// the offer returned.
    spec fn offers(&self) -> Seq<(Seq<u8>, Result<(), TransportError>)>;

    /// Whether this transport takes every frame it is offered.
    spec fn never_fails(&self) -> bool;

    /// Hands `frame` on; the offer and its outcome are recorded.
    fn write_frame(&mut self, frame: &[u8]) -> (r: Result<(), TransportError>)
        ensures
            final(self).offers() == old(self).offers().push((frame@, r)),
            old(self).never_fails() ==> r is Ok,
    ;
}

/// A transport that only records the frames it is given.
#[derive(Debug, Clone, PartialEq, Eq)]
pub struct MockTransport {
    frames: Vec<Vec<u8>>,
}

impl MockTransport {
    /// The recorded frames, oldest first: the frames of all offers so far.
    pub fn frames(&self) -> (r: &[Vec<u8>])
        ensures
            r@.len() == self.offers().len(),
            forall|i: int| 0 <= i < r@.len() ==> (#[trigger] r@[i])@ == self.offers()[i].0,
    {
        self.frames.as_slice()
    }
}

impl Default for MockTransport {
    fn default() -> (t: Self)
        ensures
            t.offers() == Seq::<(Seq<u8>, Result<(), TransportError>)>::empty(),
            t.never_fails(),
    {
        let t = MockTransport { frames: Vec::new() };
        assert(t.offers() =~= Seq::<(Seq<u8>, Result<(), TransportError>)>::empty());
        t
    }
}

impl ServoTransport for MockTransport {
    closed spec fn offers(&self) -> Seq<(Seq<u8>, Result<(), TransportError>)> {
        self.frames@.map_values(|f: Vec<u8>| (f@, Ok::<(), TransportError>(())))
    }

    /// The mock takes every frame.
    open spec fn never_fails(&self) -> bool {
        true
    }

    fn write_frame(&mut self, frame: &[u8]) -> (r: Result<(), TransportError>)
        ensures
            r is Ok,
            final(self).never_fails(),
    {
        self.frames.push(slice_to_vec(frame));
        let r = Ok(());
        assert(self.offers() =~= old(self).offers().push((frame@, r)));
        r
    }
}

/// Duration of a move in milliseconds.
#[derive(Debug, Clone, Copy, PartialEq, Eq, Structural)]
pub struct MoveDurationMs(pub u16);

impl MoveDurationMs {
    pub fn new(value: u16) -> (d: Self)
        ensures
            d.0 == value,
    {
        MoveDurationMs(value)
    }
}

/// Largest pulse the controller frame may carry.
pub const MAX_FRAME_PULSE: u16 = 2500;

/// Low byte of `v`.
pub open spec fn low_byte(v: u16) -> u8 {
    (v % 256) as u8
}

/// High byte of `v`.
pub open spec fn high_byte(v: u16) -> u8 {
    (v / 256) as u8
}

/// `ID POS_L POS_H` for one command.
pub open spec fn command_bytes(c: JointCommand) -> Seq<u8> {
    seq![c.id.0, low_byte(c.pulse.0), high_byte(c.pulse.0)]
}

/// The command bytes of `cmds`, in order.
pub open spec fn commands_bytes(cmds: Seq<JointCommand>) -> Seq<u8>
    decreases cmds.len(),
{
    if cmds.len() == 0 {
        Seq::empty()
    } else {
        commands_bytes(cmds.drop_last()) + command_bytes(cmds.last())
    }
}

/// `55 55 LEN 03 COUNT TIME_L TIME_H` for `count` commands: `LEN` is the
/// parameter byte count (`COUNT`, the time and three bytes per command) plus 2.
pub open spec fn frame_header(count: nat, duration: u16) -> Seq<u8> {
    seq![0x55u8, 0x55u8, (3 * count + 5) as u8, 0x03u8, count as u8, low_byte(duration), high_byte(duration)]
}

/// The move frame for `cmds` over `duration` milliseconds.
pub open spec fn move_frame(cmds: Seq<JointCommand>, duration: u16) -> Seq<u8> {
    frame_header(cmds.len(), duration) + commands_bytes(cmds)
}

/// The pulse of the first command whose pulse exceeds `MAX_FRAME_PULSE`.
pub open spec fn first_excess_pulse(cmds: Seq<JointCommand>) -> Option<u16>
    decreases cmds.len(),
{
    if cmds.len() == 0 {
        None
    } else if cmds[0].pulse.0 > MAX_FRAME_PULSE {
        Some(cmds[0].pulse.0)
    } else {
        first_excess_pulse(cmds.drop_first())
    }
}

pub open spec fn excess_pulse_message(pulse: u16) -> Seq<char> {
    "pulse "@ + decimal_chars(pulse as nat) + " exceeds 2500"@
}

/// The message with which a move of `cmds` is refused, if it is.
pub open spec fn move_error(cmds: Seq<JointCommand>) -> Option<Seq<char>> {
    if cmds.len() == 0 {
        Some("servo move requires at least one command"@)
    } else if cmds.len() > 255 {
        Some("too many servo commands for one frame"@)
    } else if 3 * cmds.len() + 5 > 255 {
        Some("frame length overflow"@)
    } else {
        match first_excess_pulse(cmds) {
            Some(p) => Some(excess_pulse_message(p)),
            None => None,
        }
    }
}

fn push_u16_le(frame: &mut Vec<u8>, value: u16)
    ensures
        final(frame)@ == old(frame)@ + seq![low_byte(value), high_byte(value)],
{
    frame.push((value % 256) as u8);
    frame.push((value / 256) as u8);
    assert(final(frame)@ =~= old(frame)@ + seq![low_byte(value), high_byte(value)]);
}

fn checked_u8(value: usize, name: &str) -> (r: Result<u8, TransportError>)
    ensures
        value <= 255 ==> r == Ok::<u8, TransportError>(value as u8),
        value > 255 ==> (r matches Err(TransportError::InvalidCommand(m)) && m@ == name@ + " overflow"@),
{
    if value <= 255 {
        Ok(value as u8)
    } else {
        let mut m = String::from_str(name);
        m.append(" overflow");
        Err(TransportError::InvalidCommand(m))
    }
}

fn validate_pulse(pulse: u16) -> (r: Result<(), TransportError>)
    ensures
        pulse <= MAX_FRAME_PULSE ==> r is Ok,
        pulse > MAX_FRAME_PULSE ==> (r matches Err(TransportError::InvalidCommand(m)) && m@
            == excess_pulse_message(pulse)),
{
    if pulse <= MAX_FRAME_PULSE {
        Ok(())
    } else {
        let mut m = String::from_str("pulse ");
        push_decimal(&mut m, pulse as u32);
        m.append(" exceeds 2500");
        Err(TransportError::InvalidCommand(m))
    }
}

/// The servo move frame for `commands` over `duration`, or the reason it
/// cannot be built.
pub fn encode_lobot_servo_move(commands: &[JointCommand], duration: MoveDurationMs) -> (r: Result<
    Vec<u8>,
    TransportError,
>)
    ensures
        move_error(commands@) matches Some(msg) ==> (r matches Err(TransportError::InvalidCommand(m))
            && m@ == msg),
        move_error(commands@) is None ==> (r matches Ok(f) && f@ == move_frame(commands@, duration.0)),
{
    if commands.len() == 0 {
        return Err(TransportError::InvalidCommand(String::from_str("servo move requires at least one command")));
    }
    if commands.len() > 255 {
        return Err(TransportError::InvalidCommand(String::from_str("too many servo commands for one frame")));
    }
    let n = commands.len();
    let params_len = 1 + 2 + n * 3;
    proof {
        reveal_strlit("frame length");
        reveal_strlit(" overflow");
        reveal_strlit("frame length overflow");
    }
    let length = match checked_u8(params_len + 2, "frame length") {
        Ok(l) => l,
        Err(e) => {
            return Err(e);
        },
    };
    let mut frame: Vec<u8> = Vec::with_capacity(4 + params_len);
    frame.push(0x55);
    frame.push(0x55);
    frame.push(length);
    frame.push(0x03);
    frame.push(n as u8);
    push_u16_le(&mut frame, duration.0);
    assert(frame@ =~= frame_header(n as nat, duration.0));
    let mut i: usize = 0;
    assert(commands@.skip(0) =~= commands@);
    assert(commands@.take(0) =~= Seq::<JointCommand>::empty());
    while i < n
        invariant
            n == commands@.len(),
            0 < n,
            3 * n + 5 <= 255,
            i <= n,
            first_excess_pulse(commands@) == first_excess_pulse(commands@.skip(i as int)),
            frame@ == frame_header(n as nat, duration.0) + commands_bytes(commands@.take(i as int)),
        decreases n - i,
    {
        let command = commands[i];
        assert(commands@.skip(i as int)[0] == command);
        assert(commands@.skip(i as int).drop_first() =~= commands@.skip(i + 1));
        match validate_pulse(command.pulse.0) {
            Ok(()) => {},
            Err(e) => {
                return Err(e);
            },
        }
        frame.push(command.id.0);
        push_u16_le(&mut frame, command.pulse.0);
        assert(commands@.take(i + 1).drop_last() =~= commands@.take(i as int));
        assert(frame@ =~= frame_header(n as nat, duration.0) + commands_bytes(commands@.take(i + 1)));
        i += 1;
    }
    assert(commands@.take(n as int) =~= commands@);
    assert(commands@.skip(n as int) =~= Seq::<JointCommand>::empty());
    Ok(frame)
}

/// Encodes a move and hands the frame to `transport` once, returning what
/// the transport returned; a move that cannot be encoded is refused before
/// the transport is touched.
pub fn send_servo_move<T: ServoTransport>(
    transport: &mut T,
    commands: &[JointCommand],
    duration: MoveDurationMs,
) -> (r: Result<(), TransportError>)
    ensures
        move_error(commands@) matches Some(msg) ==> (r matches Err(TransportError::InvalidCommand(m))
            && m@ == msg),
        move_error(commands@) is Some ==> *final(transport) == *old(transport),
        move_error(commands@) is None ==> final(transport).offers() == old(transport).offers().push(
            (move_frame(commands@, duration.0), r),
        ),
        move_error(commands@) is None && old(transport).never_fails() ==> r is Ok,
{
    let frame = match encode_lobot_servo_move(commands, duration) {
        Ok(f) => f,
        Err(e) => {
            return Err(e);
        },
    };
    transport.write_frame(frame.as_slice())
}

proof fn lemma_commands_bytes(cmds: Seq<JointCommand>)
    ensures
        commands_bytes(cmds).len() == 3 * cmds.len(),
        forall|i: int, k: int|
            0 <= i < cmds.len() && 0 <= k < 3 ==> #[trigger] commands_bytes(cmds)[3 * i + k]
                == command_bytes(#[trigger] cmds[i])[k],
    decreases cmds.len(),
{
    if cmds.len() > 0 {
        let init = cmds.drop_last();
        lemma_commands_bytes(init);
        assert forall|i: int, k: int|
            0 <= i < cmds.len() && 0 <= k < 3 implies #[trigger] commands_bytes(cmds)[3 * i + k]
                == command_bytes(#[trigger] cmds[i])[k] by {
            if i < cmds.len() - 1 {
                assert(init[i] == cmds[i]);
                assert(commands_bytes(cmds)[3 * i + k] == commands_bytes(init)[3 * i + k]);
            }
        }
    }
}

proof fn lemma_first_excess_pulse(cmds: Seq<JointCommand>)
    ensures
        first_excess_pulse(cmds) is None <==> forall|i: int|
            0 <= i < cmds.len() ==> (#[trigger] cmds[i]).pulse.0 <= MAX_FRAME_PULSE,
    decreases cmds.len(),
{
    if cmds.len() > 0 {
        lemma_first_excess_pulse(cmds.drop_first());
        assert forall|i: int| 0 < i < cmds.len() implies #[trigger] cmds[i] == cmds.drop_first()[i - 1] by {}
        if first_excess_pulse(cmds) is Some && cmds[0].pulse.0 <= MAX_FRAME_PULSE {
            let k = choose|k: int|
                0 <= k < cmds.len() - 1 && (#[trigger] cmds.drop_first()[k]).pulse.0 > MAX_FRAME_PULSE;
            assert(cmds[k + 1] == cmds.drop_first()[k]);
        }
    }
}

/// A frame that is built lays out as the protocol describes: `55 55`, `LEN`
/// equal to the frame length minus 2, command `03`, the command count, the
/// duration little-endian, then for each command in order its id and pulse
/// little-endian; and no pulse in it exceeds `MAX_FRAME_PULSE`.
pub proof fn move_frame_layout(cmds: Seq<JointCommand>, duration: u16)
    requires
        move_error(cmds) is None,
    ensures
        ({
            let f = move_frame(cmds, duration);
            &&& f.len() == 3 * cmds.len() + 7
            &&& f[0] == 0x55 && f[1] == 0x55
            &&& f[2] + 2 == f.len()
            &&& f[3] == 0x03
            &&& f[4] == cmds.len()
            &&& f[5] + 256 * f[6] == duration
            &&& forall|i: int|
                0 <= i < cmds.len() ==> {
                    &&& f[7 + 3 * i] == (#[trigger] cmds[i]).id.0
                    &&& f[8 + 3 * i] + 256 * f[9 + 3 * i] == cmds[i].pulse.0
                    &&& cmds[i].pulse.0 <= MAX_FRAME_PULSE
                }
        }),
{
    let f = move_frame(cmds, duration);
    lemma_commands_bytes(cmds);
    lemma_first_excess_pulse(cmds);
    assert forall|i: int| 0 <= i < cmds.len() implies {
        &&& f[7 + 3 * i] == (#[trigger] cmds[i]).id.0
        &&& f[8 + 3 * i] + 256 * f[9 + 3 * i] == cmds[i].pulse.0
    } by {
        assert(f[7 + 3 * i] == commands_bytes(cmds)[3 * i + 0]);
        assert(f[8 + 3 * i] == commands_bytes(cmds)[3 * i + 1]);
        assert(f[9 + 3 * i] == commands_bytes(cmds)[3 * i + 2]);
    }
}

/// A move is refused only for the reasons the protocol needs: it is refused
/// exactly when it is empty, when `LEN` (three bytes per command plus 5) would
/// not fit in a byte, or when some pulse exceeds 2500. Every other list of
/// commands, whatever its ids and pulses, is encoded.
pub proof fn move_refused_only_for_listed_reasons(cmds: Seq<JointCommand>)
    ensures
        move_error(cmds) is None <==> (1 <= cmds.len() && 3 * cmds.len() + 5 <= 255 && forall|i: int|
            0 <= i < cmds.len() ==> (#[trigger] cmds[i]).pulse.0 <= 2500),
{
    lemma_first_excess_pulse(cmds);
}

/// The pulse named in a refusal for an excess pulse is that of the first
/// command whose pulse exceeds 2500.
pub proof fn excess_refusal_names_first_excess_pulse(cmds: Seq<JointCommand>, k: int)
    requires
        0 <= k < cmds.len(),
        cmds[k].pulse.0 > 2500,
        forall|q: int| 0 <= q < k ==> cmds[q].pulse.0 <= 2500,
    ensures
        first_excess_pulse(cmds) == Some(cmds[k].pulse.0),
    decreases k,
{
    if k > 0 {
        let rest = cmds.drop_first();
        assert(rest[k - 1] == cmds[k]);
        assert forall|q: int| 0 <= q < k - 1 implies rest[q].pulse.0 <= 2500 by {
            assert(rest[q] == cmds[q + 1]);
        }
        excess_refusal_names_first_excess_pulse(rest, k - 1);
    }
}

/// Each byte as two upper-case hex digits, separated by single spaces.
pub open spec fn hex_text(bytes: Seq<u8>) -> Seq<char>
    decreases bytes.len(),
{
    if bytes.len() == 0 {
        Seq::empty()
    } else if bytes.len() == 1 {
        hex_byte_chars(bytes[0])
    } else {
        hex_text(bytes.drop_last()) + seq![' '] + hex_byte_chars(bytes.last())
    }
}

/// The hex text of `n` bytes has `3 * n - 1` characters: byte `i` as two
/// digits at `3 * i`, and a space after every byte but the last.
pub proof fn hex_text_layout(bytes: Seq<u8>)
    requires
        bytes.len() > 0,
    ensures
        hex_text(bytes).len() == 3 * bytes.len() - 1,
        forall|i: int|
            0 <= i < bytes.len() ==> {
                &&& hex_text(bytes)[3 * i] == digit_char((#[trigger] bytes[i] / 16) as int)
                &&& hex_text(bytes)[3 * i + 1] == digit_char((bytes[i] % 16) as int)
                &&& i + 1 < bytes.len() ==> hex_text(bytes)[3 * i + 2] == ' '
            },
    decreases bytes.len(),
{
    if bytes.len() > 1 {
        let init = bytes.drop_last();
        hex_text_layout(init);
        assert forall|i: int| 0 <= i < bytes.len() implies {
            &&& hex_text(bytes)[3 * i] == digit_char((#[trigger] bytes[i] / 16) as int)
            &&& hex_text(bytes)[3 * i + 1] == digit_char((bytes[i] % 16) as int)
            &&& i + 1 < bytes.len() ==> hex_text(bytes)[3 * i + 2] == ' '
        } by {
            if i < bytes.len() - 1 {
                assert(init[i] == bytes[i]);
            }
        }
    }
}

pub fn bytes_to_hex(bytes: &[u8]) -> (s: String)
    ensures
        s@ == hex_text(bytes@),
{
    let mut s = String::new();
    let mut i: usize = 0;
    proof {
        reveal_strlit(" ");
    }
    assert(bytes@.take(0) =~= Seq::<u8>::empty());
    while i < bytes.len()
        invariant
            i <= bytes@.len(),
            s@ == hex_text(bytes@.take(i as int)),
            " "@ == seq![' '],
        decreases bytes@.len() - i,
    {
        if i > 0 {
            s.append(" ");
        }
        let b = bytes[i];
        s.append(digit_str(b / 16));
        s.append(digit_str(b % 16));
        assert(bytes@.take(i + 1).drop_last() =~= bytes@.take(i as int));
        assert(s@ =~= hex_text(bytes@.take(i + 1)));
        i += 1;
    }
    assert(bytes@.take(bytes@.len() as int) =~= bytes@);
    s
}

} // verus!
