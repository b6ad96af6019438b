use vstd::prelude::*;

verus! {

/// Controller channel of one servo.
#[derive(Debug, Clone, Copy, PartialEq, Eq, Hash, Structural)]
pub struct JointId(pub u8);

/// Servo pulse width in microseconds.
#[derive(Debug, Clone, Copy, PartialEq, Eq, Structural)]
pub struct Pulse(pub u16);

impl Pulse {
    pub fn new(value: u16) -> (p: Self)
        ensures
            p.0 == value,
    {
        Pulse(value)
    }
}

/// Safe pulse range of one joint, with its neutral pulse.
#[derive(Debug, Clone, Copy, PartialEq, Eq, Structural)]
pub struct JointLimit {
    pub id: JointId,
    pub min: Pulse,
    pub neutral: Pulse,
    pub max: Pulse,
}

/// `p` limited to `lo..=hi`.
pub open spec fn clamp_value(p: u16, lo: u16, hi: u16) -> u16 {
    if p < lo {
        lo
    } else if p > hi {
        hi
    } else {
        p
    }
}

impl JointLimit {
    /// The limit's range is not empty.
    pub open spec fn ordered(self) -> bool {
        self.min.0 <= self.max.0
    }

    /// `min <= neutral <= max`.
    pub open spec fn well_formed(self) -> bool {
        self.min.0 <= self.neutral.0 <= self.max.0
    }

    pub open spec fn spec_contains(self, pulse: Pulse) -> bool {
        self.min.0 <= pulse.0 <= self.max.0
    }

    pub open spec fn spec_clamp(self, pulse: Pulse) -> Pulse {
        Pulse(clamp_value(pulse.0, self.min.0, self.max.0))
    }

    pub fn contains(self, pulse: Pulse) -> (r: bool)
        ensures
            r == self.spec_contains(pulse),
    {
        self.min.0 <= pulse.0 && pulse.0 <= self.max.0
    }

    pub fn clamp(self, pulse: Pulse) -> (r: Pulse)
        requires
            self.ordered(),
        ensures
            r == self.spec_clamp(pulse),
    {
        if pulse.0 < self.min.0 {
            self.min
        } else if pulse.0 > self.max.0 {
            self.max
        } else {
            pulse
        }
    }
}


/// A target pulse for one joint.
#[derive(Debug, Clone, Copy, PartialEq, Eq, Structural)]
pub struct JointCommand {
    pub id: JointId,
    pub pulse: Pulse,
}

impl JointCommand {
    pub fn new(id: u8, pulse: u16) -> (c: Self)
        ensures
            c == (JointCommand { id: JointId(id), pulse: Pulse(pulse) }),
    {
        JointCommand { id: JointId(id), pulse: Pulse(pulse) }
    }
}

/// The pulse of the first command in `cmds` for joint `id`, if any.
pub open spec fn first_pulse(cmds: Seq<JointCommand>, id: JointId) -> Option<Pulse>
    decreases cmds.len(),
{
    if cmds.len() == 0 {
        None
    } else if cmds[0].id == id {
        Some(cmds[0].pulse)
    } else {
        first_pulse(cmds.drop_first(), id)
    }
}

/// The first limit in `joints` for joint `id`, if any.
pub open spec fn first_limit(joints: Seq<JointLimit>, id: JointId) -> Option<JointLimit>
    decreases joints.len(),
{
    if joints.len() == 0 {
        None
    } else if joints[0].id == id {
        Some(joints[0])
    } else {
        first_limit(joints.drop_first(), id)
    }
}

/// Every limit has `min <= neutral <= max`.
pub open spec fn limits_well_formed(joints: Seq<JointLimit>) -> bool {
    forall|i: int| 0 <= i < joints.len() ==> (#[trigger] joints[i]).well_formed()
}

/// No joint id occurs twice.
pub open spec fn ids_distinct(joints: Seq<JointLimit>) -> bool {
    forall|i: int, j: int| 0 <= i < j < joints.len() ==> #[trigger] joints[i].id != #[trigger] joints[j].id
}

/// What every `RobotArmSpec` holds.
pub open spec fn valid_arm(joints: Seq<JointLimit>) -> bool {
    limits_well_formed(joints) && ids_distinct(joints)
}

/// A command with its pulse limited to the joint's range; commands for joints
/// the arm does not have are left as they are.
pub open spec fn clamp_command(joints: Seq<JointLimit>, c: JointCommand) -> JointCommand {
    match first_limit(joints, c.id) {
        Some(l) => JointCommand { id: c.id, pulse: l.spec_clamp(c.pulse) },
        None => c,
    }
}

/// The command that holds joint `j` at its neutral pulse.
pub open spec fn neutral_command(j: JointLimit) -> JointCommand {
    JointCommand { id: j.id, pulse: j.neutral }
}

/// Why a single command is refused, if it is.
pub open spec fn command_error(joints: Seq<JointLimit>, c: JointCommand) -> Option<ArmPoseError> {
    match first_limit(joints, c.id) {
        None => Some(ArmPoseError::UnknownJoint(c.id)),
        Some(l) => if l.spec_contains(c.pulse) {
            None
        } else {
            Some(ArmPoseError::PulseOutOfRange { id: c.id, pulse: c.pulse, min: l.min, max: l.max })
        },
    }
}

/// The outcome of validating `cmds` in order: the error of the first refused
/// command, or `Ok(())`.
pub open spec fn validation(joints: Seq<JointLimit>, cmds: Seq<JointCommand>) -> Result<(), ArmPoseError>
    decreases cmds.len(),
{
    if cmds.len() == 0 {
        Ok(())
    } else {
        match command_error(joints, cmds[0]) {
            Some(e) => Err(e),
            None => validation(joints, cmds.drop_first()),
        }
    }
}

/// The built-in channel `i` (zero-based) of the provisional arm.
pub open spec fn provisional_joint(i: int) -> JointLimit {
    JointLimit { id: JointId((i + 1) as u8), min: Pulse(1100), neutral: Pulse(1500), max: Pulse(1900) }
}

/// The six built-in channels of the provisional arm.
pub open spec fn provisional_joints() -> Seq<JointLimit> {
    Seq::new(6, |i: int| provisional_joint(i))
}

/// A set of joint commands, in the order they are sent.
#[derive(Debug, Clone, PartialEq, Eq)]
pub struct ArmPose {
    commands: Vec<JointCommand>,
}

impl View for ArmPose {
    type V = Seq<JointCommand>;

    closed spec fn view(&self) -> Seq<JointCommand> {
        self.commands@
    }
}

impl ArmPose {
    pub fn new(commands: Vec<JointCommand>) -> (p: Self)
        ensures
            p@ == commands@,
    {
        ArmPose { commands }
    }

    pub fn commands(&self) -> (r: &[JointCommand])
        ensures
            r@ == self@,
    {
        self.commands.as_slice()
    }

    /// A pose of the commands that `f` makes of this pose's commands, in order.
    pub fn map_pulses(&self, f: impl Fn(JointCommand) -> JointCommand) -> (r: Self)
        requires
            forall|i: int| 0 <= i < self@.len() ==> call_requires(f, (#[trigger] self@[i],)),
        ensures
            r@.len() == self@.len(),
            forall|i: int| 0 <= i < self@.len() ==> call_ensures(f, (self@[i],), #[trigger] r@[i]),
    {
        let mut out: Vec<JointCommand> = Vec::new();
        let mut i: usize = 0;
        while i < self.commands.len()
            invariant
                i <= self@.len(),
                self@ == self.commands@,
                out@.len() == i,
                forall|k: int| 0 <= k < self@.len() ==> call_requires(f, (#[trigger] self@[k],)),
                forall|k: int| 0 <= k < i ==> call_ensures(f, (self@[k],), #[trigger] out@[k]),
            decreases self.commands@.len() - i,
        {
            let c = f(self.commands[i]);
            out.push(c);
            i += 1;
        }
        ArmPose { commands: out }
    }

    /// The pulse of the first command for joint `id`.
    pub fn get(&self, id: JointId) -> (r: Option<Pulse>)
        ensures
            r == first_pulse(self@, id),
    {
        let mut i: usize = 0;
        assert(self.commands@.skip(0) =~= self.commands@);
        while i < self.commands.len()
            invariant
                i <= self.commands@.len(),
                first_pulse(self.commands@, id) == first_pulse(self.commands@.skip(i as int), id),
            decreases self.commands@.len() - i,
        {
            if self.commands[i].id == id {
                return Some(self.commands[i].pulse);
            }
            assert(self.commands@.skip(i as int).drop_first() =~= self.commands@.skip(i + 1));
            i += 1;
        }
        None
    }
}

/// The joints of an arm: each with `min <= neutral <= max`, no id twice.
#[derive(Debug)]
pub struct RobotArmSpec {
    joints: Vec<JointLimit>,
}

impl View for RobotArmSpec {
    type V = Seq<JointLimit>;

    closed spec fn view(&self) -> Seq<JointLimit> {
        self.joints@
    }
}

impl RobotArmSpec {
    #[verifier::type_invariant]
    closed spec fn inv(self) -> bool {
        valid_arm(self.joints@)
    }

    /// Accepts `joints` if each has `min <= neutral <= max` (else
    /// `InvalidLimits`) and no id occurs twice (else `DuplicateJointId`).
    pub fn new(joints: Vec<JointLimit>) -> (r: Result<Self, ArmSpecError>)
        ensures
            !limits_well_formed(joints@) ==> r == Err::<Self, ArmSpecError>(ArmSpecError::InvalidLimits),
            limits_well_formed(joints@) && !ids_distinct(joints@) ==> r == Err::<Self, ArmSpecError>(
                ArmSpecError::DuplicateJointId,
            ),
            valid_arm(joints@) ==> (r matches Ok(s) && s@ == joints@),
    {
        let n = joints.len();
        let mut i: usize = 0;
        while i < n
            invariant
                n == joints@.len(),
                i <= n,
                forall|k: int| 0 <= k < i ==> (#[trigger] joints@[k]).well_formed(),
            decreases n - i,
        {
            let j = joints[i];
            if j.min.0 > j.neutral.0 || j.neutral.0 > j.max.0 {
                return Err(ArmSpecError::InvalidLimits);
            }
            i += 1;
        }
        let mut a: usize = 0;
        while a < n
            invariant
                n == joints@.len(),
                a <= n,
                limits_well_formed(joints@),
                forall|x: int, y: int| 0 <= x < a && x < y < n ==> #[trigger] joints@[x].id != #[trigger] joints@[y].id,
            decreases n - a,
        {
            let mut b: usize = a + 1;
            while b < n
                invariant
                    n == joints@.len(),
                    a < n,
                    a + 1 <= b <= n,
                    limits_well_formed(joints@),
                    forall|x: int, y: int| 0 <= x < a && x < y < n ==> #[trigger] joints@[x].id != #[trigger] joints@[y].id,
                    forall|y: int| a < y < b ==> joints@[a as int].id != #[trigger] joints@[y].id,
                decreases n - b,
            {
                if joints[b].id == joints[a].id {
                    return Err(ArmSpecError::DuplicateJointId);
                }
                b += 1;
            }
            a += 1;
        }
        Ok(RobotArmSpec { joints })
    }

    /// The provisional limits used until the real arm is measured: channels
    /// 1 to 6, each `1100..=1900` with neutral `1500`.
    pub fn lewansoul_learm_provisional() -> (s: Self)
        ensures
            s@ == provisional_joints(),
    {
        let mut joints: Vec<JointLimit> = Vec::new();
        let mut id: u8 = 1;
        while id <= 6
            invariant
                1 <= id <= 7,
                joints@.len() == id - 1,
                forall|k: int| 0 <= k < joints@.len() ==> #[trigger] joints@[k] == provisional_joint(k),
            decreases 7 - id,
        {
            joints.push(JointLimit { id: JointId(id), min: Pulse(1100), neutral: Pulse(1500), max: Pulse(1900) });
            id += 1;
        }
        assert(joints@ =~= provisional_joints());
        RobotArmSpec::new(joints).expect("provisional built-in limits are internally valid")
    }

    pub fn joints(&self) -> (r: &[JointLimit])
        ensures
            r@ == self@,
            valid_arm(self@),
    {
        proof {
            use_type_invariant(self);
        }
        self.joints.as_slice()
    }

    /// Every joint at its neutral pulse, in the spec's order.
    pub fn neutral_pose(&self) -> (p: ArmPose)
        ensures
            p@ == self@.map_values(|j: JointLimit| neutral_command(j)),
    {
        let mut out: Vec<JointCommand> = Vec::new();
        let mut i: usize = 0;
        while i < self.joints.len()
            invariant
                i <= self.joints@.len(),
                out@.len() == i,
                forall|k: int| 0 <= k < i ==> #[trigger] out@[k] == neutral_command(self.joints@[k]),
            decreases self.joints@.len() - i,
        {
            let j = self.joints[i];
            out.push(JointCommand { id: j.id, pulse: j.neutral });
            i += 1;
        }
        assert(out@ =~= self.joints@.map_values(|j: JointLimit| neutral_command(j)));
        ArmPose::new(out)
    }

    /// Each command's pulse limited to its joint's range; commands for joints
    /// this arm does not have pass unchanged.
    pub fn clamp_pose(&self, pose: &ArmPose) -> (r: ArmPose)
        ensures
            r@ == pose@.map_values(|c: JointCommand| clamp_command(self@, c)),
    {
        let f = |command: JointCommand| -> (out: JointCommand)
            ensures
                out == clamp_command(self@, command),
            {
                match self.limit_for(command.id) {
                    Some(limit) => JointCommand { id: command.id, pulse: limit.clamp(command.pulse) },
                    None => command,
                }
            };
        let r = pose.map_pulses(f);
        assert(r@ =~= pose@.map_values(|c: JointCommand| clamp_command(self@, c)));
        r
    }

    /// `Ok(())` if every command names a joint of this arm and lies in its
    /// range; otherwise the error of the first command that does not.
    pub fn validate_pose(&self, pose: &ArmPose) -> (r: Result<(), ArmPoseError>)
        ensures
            r == validation(self@, pose@),
    {
        let commands = pose.commands();
        let mut i: usize = 0;
        assert(commands@.skip(0) =~= commands@);
        while i < commands.len()
            invariant
                i <= commands@.len(),
                commands@ == pose@,
                validation(self@, commands@) == validation(self@, commands@.skip(i as int)),
            decreases commands@.len() - i,
        {
            let command = commands[i];
            assert(commands@.skip(i as int)[0] == command);
            assert(commands@.skip(i as int).drop_first() =~= commands@.skip(i + 1));
            match self.limit_for(command.id) {
                None => {
                    return Err(ArmPoseError::UnknownJoint(command.id));
                },
                Some(limit) => {
                    if !limit.contains(command.pulse) {
                        return Err(
                            ArmPoseError::PulseOutOfRange {
                                id: command.id,
                                pulse: command.pulse,
                                min: limit.min,
                                max: limit.max,
                            },
                        );
                    }
                },
            }
            i += 1;
        }
        Ok(())
    }

    /// The first limit for joint `id`.
    pub fn limit_for(&self, id: JointId) -> (r: Option<JointLimit>)
        ensures
            r == first_limit(self@, id),
            r matches Some(l) ==> l.id == id && l.well_formed(),
    {
        proof {
            use_type_invariant(self);
        }
        let mut i: usize = 0;
        assert(self.joints@.skip(0) =~= self.joints@);
        while i < self.joints.len()
            invariant
                i <= self.joints@.len(),
                valid_arm(self.joints@),
                first_limit(self.joints@, id) == first_limit(self.joints@.skip(i as int), id),
            decreases self.joints@.len() - i,
        {
            if self.joints[i].id == id {
                return Some(self.joints[i]);
            }
            assert(self.joints@.skip(i as int).drop_first() =~= self.joints@.skip(i + 1));
            i += 1;
        }
        None
    }
}

impl Clone for RobotArmSpec {
    fn clone(&self) -> (r: Self)
        ensures
            r@ == self@,
    {
        proof {
            use_type_invariant(self);
        }
        let joints = self.joints.clone();
        assert(joints@ =~= self.joints@);
        RobotArmSpec { joints }
    }
}

/// A limit found by `first_limit` is one of the joints, for that id.
pub proof fn lemma_first_limit_member(joints: Seq<JointLimit>, id: JointId)
    ensures
        first_limit(joints, id) matches Some(l) ==> l.id == id && exists|k: int|
            0 <= k < joints.len() && joints[k] == l,
        first_limit(joints, id) is None ==> forall|k: int| 0 <= k < joints.len() ==> joints[k].id != id,
    decreases joints.len(),
{
    if joints.len() > 0 && joints[0].id != id {
        lemma_first_limit_member(joints.drop_first(), id);
        if let Some(l) = first_limit(joints, id) {
            let k = choose|k: int| 0 <= k < joints.len() - 1 && joints.drop_first()[k] == l;
            assert(joints[k + 1] == l);
        } else {
            assert forall|k: int| 0 <= k < joints.len() implies joints[k].id != id by {
                if k > 0 {
                    assert(joints[k] == joints.drop_first()[k - 1]);
                }
            }
        }
    }
}

/// Why `RobotArmSpec::new` refused its joints.
#[derive(Debug, Clone, Copy, PartialEq, Eq, Structural)]
pub enum ArmSpecError {
    DuplicateJointId,
    InvalidLimits,
}

/// Why a pose was refused.
#[derive(Debug, Clone, Copy, PartialEq, Eq, Structural)]
pub enum ArmPoseError {
    UnknownJoint(JointId),
    PulseOutOfRange { id: JointId, pulse: Pulse, min: Pulse, max: Pulse },
}

} // verus!
