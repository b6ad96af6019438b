//! The `frame` command: joint commands and a duration read from words of
//! text, encoded as a servo move frame in hex.

use vstd::prelude::*;
use vstd::string::{StrSliceExecFns, StringExecFns};
use crate::arm::{JointCommand, JointId, Pulse};
use crate::text::{decimal_chars, digit_char, push_decimal};
use crate::transport::{
    bytes_to_hex, encode_lobot_servo_move, hex_text, move_error, move_frame, MoveDurationMs, TransportError,
};

verus! {

/// Whether two texts hold the same characters.
pub fn text_equals(a: &str, b: &str) -> (r: bool)
    ensures
        r == (a@ == b@),
{
    let n = a.unicode_len();
    if n != b.unicode_len() {
        return false;
    }
    let mut i: usize = 0;
    while i < n
        invariant
            n == a@.len(),
            n == b@.len(),
            i <= n,
            forall|k: int| 0 <= k < i ==> a@[k] == b@[k],
        decreases n - i,
    {
        if a.get_char(i) != b.get_char(i) {
            return false;
        }
        i += 1;
    }
    assert(a@ =~= b@);
    true
}

/// Whether `c` is one of `0` to `9`.
pub open spec fn is_digit(c: char) -> bool {
    '0' <= c <= '9'
}

/// The value of decimal digit `c`.
pub open spec fn digit_value(c: char) -> int {
    c as int - '0' as int
}

/// The value of a string of decimal digits.
pub open spec fn digits_value(s: Seq<char>) -> int
    decreases s.len(),
{
    if s.len() == 0 {
        0
    } else {
        digits_value(s.drop_last()) * 10 + digit_value(s.last())
    }
}

/// The digits of an unsigned decimal number: the text after a leading `+`,
/// if there is one and something follows it.
pub open spec fn unsigned_digits(s: Seq<char>) -> Seq<char> {
    if s.len() > 1 && s[0] == '+' {
        s.drop_first()
    } else {
        s
    }
}

/// The `u16` that `s` writes in decimal (an optional `+`, then at least one
/// digit), if it writes one in range.
pub open spec fn u16_value(s: Seq<char>) -> Option<u16> {
    let d = unsigned_digits(s);
    if d.len() > 0 && (forall|i: int| 0 <= i < d.len() ==> is_digit(#[trigger] d[i])) && digits_value(d) <= 65535 {
        Some(digits_value(d) as u16)
    } else {
        None
    }
}

/// The message for a word that is not a `u16`.
pub open spec fn not_u16_message(name: Seq<char>, value: Seq<char>) -> Seq<char> {
    name + " '"@ + value + "' is not a u16"@
}

proof fn lemma_digits_value_nonneg(s: Seq<char>)
    requires
        forall|i: int| 0 <= i < s.len() ==> is_digit(#[trigger] s[i]),
    ensures
        digits_value(s) >= 0,
    decreases s.len(),
{
    if s.len() > 0 {
        assert forall|i: int| 0 <= i < s.drop_last().len() implies is_digit(#[trigger] s.drop_last()[i]) by {
            assert(s.drop_last()[i] == s[i]);
        }
        lemma_digits_value_nonneg(s.drop_last());
    }
}

fn not_u16_error(name: &str, value: &str) -> (m: String)
    ensures
        m@ == not_u16_message(name@, value@),
{
    let mut m = String::from_str(name);
    m.append(" '");
    m.append(value);
    m.append("' is not a u16");
    m
}

/// Reads `value` as a decimal `u16`; the error names the word as `name`.
pub fn parse_u16(value: &str, name: &str) -> (r: Result<u16, String>)
    ensures
        u16_value(value@) matches Some(v) ==> r == Ok::<u16, String>(v),
        u16_value(value@) is None ==> (r matches Err(m) && m@ == not_u16_message(name@, value@)),
{
    let n = value.unicode_len();
    let start: usize = if n > 1 && value.get_char(0) == '+' { 1 } else { 0 };
    let ghost d = unsigned_digits(value@);
    assert(d =~= value@.skip(start as int));
    if start >= n {
        return Err(not_u16_error(name, value));
    }
    let mut acc: u32 = 0;
    let mut i: usize = start;
    assert(d.take(0) =~= Seq::<char>::empty());
    while i < n
        invariant
            n == value@.len(),
            start < n,
            start <= i <= n,
            d == value@.skip(start as int),
            d == unsigned_digits(value@),
            forall|k: int| 0 <= k < i - start ==> is_digit(#[trigger] d[k]),
            acc as int == if digits_value(d.take(i - start)) < 65536 {
                digits_value(d.take(i - start))
            } else {
                65536
            },
        decreases n - i,
    {
        let c = value.get_char(i);
        assert(c == d[i - start]);
        if '0' <= c && c <= '9' {
            let digit = (c as u32) - ('0' as u32);
            assert(d.take(i - start + 1).drop_last() =~= d.take(i - start));
            proof {
                lemma_digits_value_nonneg(d.take(i - start));
            }
            let next = acc * 10 + digit;
            acc = if next > 65536 { 65536 } else { next };
            i += 1;
        } else {
            assert(!is_digit(d[i - start]));
            return Err(not_u16_error(name, value));
        }
    }
    assert(d.take(n - start) =~= d);
    if acc <= 65535 {
        Ok(acc as u16)
    } else {
        Err(not_u16_error(name, value))
    }
}

/// `k` is the position of the first `:` in `s`.
pub open spec fn first_colon_at(s: Seq<char>, k: int) -> bool {
    0 <= k < s.len() && s[k] == ':' && forall|j: int| 0 <= j < k ==> s[j] != ':'
}

/// The position of the first `:` in `s`, if it has one.
pub open spec fn first_colon(s: Seq<char>) -> Option<int> {
    if exists|k: int| first_colon_at(s, k) {
        Some(choose|k: int| first_colon_at(s, k))
    } else {
        None
    }
}

pub open spec fn bad_joint_command_message(s: Seq<char>) -> Seq<char> {
    "joint command '"@ + s + "' must look like id:pulse"@
}

/// What a word `id:pulse` reads as: the id is read as a `u16` and keeps its
/// low byte; each part that is not a `u16` gives its error, the id first.
pub open spec fn joint_command_value(s: Seq<char>) -> Result<JointCommand, Seq<char>> {
    match first_colon(s) {
        None => Err(bad_joint_command_message(s)),
        Some(k) => {
            let id_text = s.take(k);
            let pulse_text = s.skip(k + 1);
            match u16_value(id_text) {
                None => Err(not_u16_message("servo id"@, id_text)),
                Some(id) => match u16_value(pulse_text) {
                    None => Err(not_u16_message("pulse"@, pulse_text)),
                    Some(p) => Ok(JointCommand { id: JointId((id % 256) as u8), pulse: Pulse(p) }),
                },
            }
        },
    }
}

/// Reads a word `id:pulse` as a joint command.
pub fn parse_joint_command(value: &str) -> (r: Result<JointCommand, String>)
    ensures
        joint_command_value(value@) matches Ok(c) ==> r == Ok::<JointCommand, String>(c),
        joint_command_value(value@) matches Err(msg) ==> (r matches Err(m) && m@ == msg),
{
    let n = value.unicode_len();
    let mut k: usize = 0;
    while k < n
        invariant
            n == value@.len(),
            k <= n,
            forall|j: int| 0 <= j < k ==> value@[j] != ':',
        ensures
            k <= n,
            forall|j: int| 0 <= j < k ==> value@[j] != ':',
            k < n ==> value@[k as int] == ':',
        decreases n - k,
    {
        if value.get_char(k) == ':' {
            break;
        }
        k += 1;
    }
    if k == n {
        assert(!exists|j: int| first_colon_at(value@, j));
        let mut m = String::from_str("joint command '");
        m.append(value);
        m.append("' must look like id:pulse");
        return Err(m);
    }
    assert(first_colon_at(value@, k as int));
    assert(first_colon(value@) == Some(k as int));
    let id_text = value.substring_char(0, k);
    let pulse_text = value.substring_char(k + 1, n);
    assert(id_text@ =~= value@.take(k as int));
    assert(pulse_text@ =~= value@.skip(k + 1));
    proof {
        reveal_strlit("servo id");
        reveal_strlit("pulse");
    }
    let id = match parse_u16(id_text, "servo id") {
        Ok(v) => v,
        Err(m) => {
            return Err(m);
        },
    };
    let pulse = match parse_u16(pulse_text, "pulse") {
        Ok(v) => v,
        Err(m) => {
            return Err(m);
        },
    };
    Ok(JointCommand::new((id % 256) as u8, pulse))
}

/// Why the `frame` command produced no frame.
#[derive(Debug, Clone, PartialEq, Eq)]
pub enum FrameCommandError {
    /// A word could not be read; the message says which and why.
    Argument(String),
    /// The commands read do not make a frame.
    Encode(TransportError),
}

/// The duration and commands that the words `args` give, read left to right
/// from `duration` and `cmds`: `--ms N` sets the duration (the last one
/// counts), every other word is a joint command; or the first error.
pub open spec fn frame_arguments(args: Seq<Seq<char>>, duration: u16, cmds: Seq<JointCommand>) -> Result<
    (u16, Seq<JointCommand>),
    Seq<char>,
>
    decreases args.len(),
{
    if args.len() == 0 {
        Ok((duration, cmds))
    } else if args[0] == "--ms"@ {
        if args.len() < 2 {
            Err("--ms requires a value"@)
        } else {
            match u16_value(args[1]) {
                None => Err(not_u16_message("duration ms"@, args[1])),
                Some(d) => frame_arguments(args.skip(2), d, cmds),
            }
        }
    } else {
        match joint_command_value(args[0]) {
            Err(m) => Err(m),
            Ok(c) => frame_arguments(args.drop_first(), duration, cmds.push(c)),
        }
    }
}

/// The text of each word.
pub open spec fn words(args: Seq<String>) -> Seq<Seq<char>> {
    args.map_values(|a: String| a@)
}

/// Reading words continues from where a prefix of them left off: if `w`
/// reads as duration `d` and commands `c`, then `w` followed by `t` reads as
/// `t` does when started from `d` and `c`.
pub proof fn frame_arguments_continue(
    w: Seq<Seq<char>>,
    t: Seq<Seq<char>>,
    d0: u16,
    c0: Seq<JointCommand>,
    d: u16,
    c: Seq<JointCommand>,
)
    requires
        frame_arguments(w, d0, c0) == Ok::<(u16, Seq<JointCommand>), Seq<char>>((d, c)),
    ensures
        frame_arguments(w + t, d0, c0) == frame_arguments(t, d, c),
    decreases w.len(),
{
    if w.len() == 0 {
        assert(w + t =~= t);
    } else {
        let wt = w + t;
        assert(wt[0] == w[0]);
        if w[0] == "--ms"@ {
            assert(w.len() >= 2);
            assert(wt[1] == w[1]);
            let dn = u16_value(w[1])->Some_0;
            assert(wt.skip(2) =~= w.skip(2) + t);
            frame_arguments_continue(w.skip(2), t, dn, c0, d, c);
        } else {
            let cmd = joint_command_value(w[0])->Ok_0;
            assert(wt.drop_first() =~= w.drop_first() + t);
            frame_arguments_continue(w.drop_first(), t, d0, c0.push(cmd), d, c);
        }
    }
}

/// The last `--ms N` sets the duration wherever it stands: appending
/// `--ms N` (with `N` a `u16`) to words that read as `(d, cmds)` gives
/// `(N, cmds)`; and appending an `id:pulse` word adds its command at the end
/// and keeps the duration.
pub proof fn last_duration_and_command_order(
    w: Seq<Seq<char>>,
    d: u16,
    cmds: Seq<JointCommand>,
    n_text: Seq<char>,
    n: u16,
    word: Seq<char>,
    c: JointCommand,
)
    requires
        frame_arguments(w, 1000, Seq::empty()) == Ok::<(u16, Seq<JointCommand>), Seq<char>>((d, cmds)),
    ensures
        u16_value(n_text) == Some(n) ==> frame_arguments(w.push("--ms"@).push(n_text), 1000, Seq::empty())
            == Ok::<(u16, Seq<JointCommand>), Seq<char>>((n, cmds)),
        word != "--ms"@ && joint_command_value(word) == Ok::<JointCommand, Seq<char>>(c) ==> frame_arguments(
            w.push(word),
            1000,
            Seq::empty(),
        ) == Ok::<(u16, Seq<JointCommand>), Seq<char>>((d, cmds.push(c))),
{
    let t1 = seq!["--ms"@, n_text];
    assert(w.push("--ms"@).push(n_text) =~= w + t1);
    frame_arguments_continue(w, t1, 1000, Seq::empty(), d, cmds);
    assert(t1[0] == "--ms"@ && t1[1] == n_text);
    if u16_value(n_text) == Some(n) {
        assert(t1.skip(2) =~= Seq::<Seq<char>>::empty());
        assert(frame_arguments(t1.skip(2), n, cmds) == Ok::<(u16, Seq<JointCommand>), Seq<char>>((n, cmds)));
        assert(frame_arguments(t1, d, cmds) == Ok::<(u16, Seq<JointCommand>), Seq<char>>((n, cmds)));
    }
    let t2 = seq![word];
    assert(w.push(word) =~= w + t2);
    frame_arguments_continue(w, t2, 1000, Seq::empty(), d, cmds);
    assert(t2[0] == word);
    assert(t2.drop_first() =~= Seq::<Seq<char>>::empty());
    if word != "--ms"@ && joint_command_value(word) == Ok::<JointCommand, Seq<char>>(c) {
        assert(frame_arguments(t2.drop_first(), d, cmds.push(c)) == Ok::<(u16, Seq<JointCommand>), Seq<char>>(
            (d, cmds.push(c)),
        ));
        assert(frame_arguments(t2, d, cmds) == Ok::<(u16, Seq<JointCommand>), Seq<char>>((d, cmds.push(c))));
    }
}

/// Reads `--ms N` and `id:pulse` words (the duration is 1000 ms unless set)
/// and renders the move frame they give in hex.
pub fn run_frame(args: &[String]) -> (r: Result<String, FrameCommandError>)
    ensures
        frame_arguments(words(args@), 1000, Seq::empty()) matches Err(msg) ==> (r matches Err(
            FrameCommandError::Argument(m),
        ) && m@ == msg),
        frame_arguments(words(args@), 1000, Seq::empty()) matches Ok((d, cmds)) ==> {
            &&& move_error(cmds) matches Some(msg) ==> (r matches Err(
                FrameCommandError::Encode(TransportError::InvalidCommand(m)),
            ) && m@ == msg)
            &&& move_error(cmds) is None ==> (r matches Ok(h) && h@ == hex_text(move_frame(cmds, d)))
        },
{
    let ghost all = words(args@);
    let mut duration = MoveDurationMs::new(1000);
    let mut commands: Vec<JointCommand> = Vec::new();
    let mut index: usize = 0;
    proof {
        reveal_strlit("--ms");
        reveal_strlit("duration ms");
    }
    assert(all.skip(0) =~= all);
    while index < args.len()
        invariant
            all == words(args@),
            index <= args@.len(),
            frame_arguments(all, 1000, Seq::empty()) == frame_arguments(all.skip(index as int), duration.0, commands@),
        decreases args@.len() - index,
    {
        let word = args[index].as_str();
        assert(all.skip(index as int)[0] == word@);
        if text_equals(word, "--ms") {
            if index + 1 < args.len() {
                let value = args[index + 1].as_str();
                assert(all.skip(index as int)[1] == value@);
                let d = match parse_u16(value, "duration ms") {
                    Ok(v) => v,
                    Err(m) => {
                        return Err(FrameCommandError::Argument(m));
                    },
                };
                duration = MoveDurationMs::new(d);
                assert(all.skip(index as int).skip(2) =~= all.skip(index + 2));
                index += 2;
            } else {
                return Err(FrameCommandError::Argument(String::from_str("--ms requires a value")));
            }
        } else {
            let c = match parse_joint_command(word) {
                Ok(c) => c,
                Err(m) => {
                    return Err(FrameCommandError::Argument(m));
                },
            };
            commands.push(c);
            assert(all.skip(index as int).drop_first() =~= all.skip(index + 1));
            index += 1;
        }
    }
    match encode_lobot_servo_move(commands.as_slice(), duration) {
        Ok(frame) => Ok(bytes_to_hex(frame.as_slice())),
        Err(e) => Err(FrameCommandError::Encode(e)),
    }
}

/// `id:pulse` for one command.
pub open spec fn command_text(c: JointCommand) -> Seq<char> {
    decimal_chars(c.id.0 as nat) + seq![':'] + decimal_chars(c.pulse.0 as nat)
}

/// The commands as `id:pulse`, separated by `, `.
pub open spec fn commands_text(cmds: Seq<JointCommand>) -> Seq<char>
    decreases cmds.len(),
{
    if cmds.len() == 0 {
        Seq::empty()
    } else if cmds.len() == 1 {
        command_text(cmds[0])
    } else {
        commands_text(cmds.drop_last()) + ", "@ + command_text(cmds.last())
    }
}

pub fn format_commands(commands: &[JointCommand]) -> (s: String)
    ensures
        s@ == commands_text(commands@),
{
    let mut s = String::new();
    let mut i: usize = 0;
    proof {
        reveal_strlit(":");
    }
    assert(commands@.take(0) =~= Seq::<JointCommand>::empty());
    while i < commands.len()
        invariant
            i <= commands@.len(),
            s@ == commands_text(commands@.take(i as int)),
            ":"@ == seq![':'],
        decreases commands@.len() - i,
    {
        if i > 0 {
            s.append(", ");
        }
        let c = commands[i];
        push_decimal(&mut s, c.id.0 as u32);
        s.append(":");
        push_decimal(&mut s, c.pulse.0 as u32);
        assert(commands@.take(i + 1).drop_last() =~= commands@.take(i as int));
        assert(s@ =~= commands_text(commands@.take(i + 1)));
        i += 1;
    }
    assert(commands@.take(commands@.len() as int) =~= commands@);
    s
}

proof fn lemma_decimal_digits(n: nat)
    ensures
        decimal_chars(n).len() > 0,
        forall|i: int| 0 <= i < decimal_chars(n).len() ==> is_digit(#[trigger] decimal_chars(n)[i]),
        digits_value(decimal_chars(n)) == n,
    decreases n,
{
    let s = decimal_chars(n);
    let d = (n % 10) as int;
    assert(digit_value(digit_char(d)) == d);
    if n < 10 {
        assert(s.drop_last() =~= Seq::<char>::empty());
        assert(s.last() == digit_char(d));
        assert(digits_value(s.drop_last()) == 0);
        assert(digits_value(s) == digits_value(s.drop_last()) * 10 + digit_value(s.last()));
    } else {
        lemma_decimal_digits(n / 10);
        assert(s.drop_last() =~= decimal_chars(n / 10));
        assert(s.last() == digit_char(d));
        assert((n / 10) * 10 + n % 10 == n) by (nonlinear_arith);
        assert(digits_value(s) == digits_value(s.drop_last()) * 10 + digit_value(s.last()));
        assert(digits_value(s.drop_last()) == n / 10);
        assert(digit_value(s.last()) == d);
        assert forall|i: int| 0 <= i < s.len() implies is_digit(#[trigger] s[i]) by {
            if i < s.len() - 1 {
                assert(s[i] == decimal_chars(n / 10)[i]);
            }
        }
    }
}

/// A number written in decimal reads back as the same number.
pub proof fn decimal_reads_back(v: u16)
    ensures
        u16_value(decimal_chars(v as nat)) == Some(v),
{
    lemma_decimal_digits(v as nat);
    let s = decimal_chars(v as nat);
    assert(is_digit(s[0]));
    assert(unsigned_digits(s) == s);
}

/// What reads as a `u16`: the decimal text of every value up to 65535, also
/// after a `+` or with leading zeros; never a larger value, the empty text, a
/// lone `+`, or a text with any other character than digits and a leading `+`.
pub proof fn u16_text_law(v: u16, n: nat, s: Seq<char>, i: int)
    ensures
        u16_value(decimal_chars(v as nat)) == Some(v),
        u16_value(seq!['+'] + decimal_chars(v as nat)) == Some(v),
        u16_value(seq!['0'] + decimal_chars(v as nat)) == Some(v),
        n > 65535 ==> u16_value(decimal_chars(n)) is None,
        u16_value(Seq::<char>::empty()) is None,
        u16_value(seq!['+']) is None,
        0 <= i < s.len() && !('0' <= s[i] <= '9') && !(i == 0 && s[i] == '+' && s.len() > 1) ==> u16_value(s) is None,
{
    decimal_reads_back(v);
    let t = decimal_chars(v as nat);
    lemma_decimal_digits(v as nat);
    lemma_decimal_digits(n);
    let p = seq!['+'] + t;
    assert(unsigned_digits(p) =~= t);
    let z = seq!['0'] + t;
    assert(unsigned_digits(z) == z);
    assert forall|k: int| 0 <= k < z.len() implies is_digit(#[trigger] z[k]) by {
        if k > 0 {
            assert(z[k] == t[k - 1]);
        }
    }
    assert(z.drop_first() =~= t);
    lemma_digits_value_leading_zero(t);
    if 0 <= i < s.len() && !('0' <= s[i] <= '9') && !(i == 0 && s[i] == '+' && s.len() > 1) {
        let d = unsigned_digits(s);
        if s.len() > 1 && s[0] == '+' {
            assert(i > 0);
            assert(d[i - 1] == s[i]);
            assert(!is_digit(d[i - 1]));
        } else {
            assert(!is_digit(d[i]));
        }
    }
}

proof fn lemma_digits_value_leading_zero(t: Seq<char>)
    ensures
        digits_value(seq!['0'] + t) == digits_value(t),
    decreases t.len(),
{
    let z = seq!['0'] + t;
    if t.len() == 0 {
        assert(z.drop_last() =~= Seq::<char>::empty());
        assert(z.last() == '0');
        assert(digits_value(Seq::<char>::empty()) == 0);
        assert(digits_value(z) == digits_value(z.drop_last()) * 10 + digit_value(z.last()));
        assert(t =~= Seq::<char>::empty());
    } else {
        lemma_digits_value_leading_zero(t.drop_last());
        assert(z.drop_last() =~= seq!['0'] + t.drop_last());
        assert(z.last() == t.last());
    }
}

/// A word reads up to its first `:` as the id: if `a` holds no `:`, the
/// first `:` of `a:b` is at `a.len()`, whatever `b` holds; a word without
/// `:` has none.
pub proof fn first_colon_law(a: Seq<char>, b: Seq<char>, s: Seq<char>)
    ensures
        (forall|j: int| 0 <= j < a.len() ==> a[j] != ':') ==> first_colon(a + seq![':'] + b) == Some(
            a.len() as int,
        ),
        (forall|j: int| 0 <= j < s.len() ==> s[j] != ':') ==> first_colon(s) is None,
{
    let w = a + seq![':'] + b;
    if forall|j: int| 0 <= j < a.len() ==> a[j] != ':' {
        assert forall|j: int| 0 <= j < a.len() implies w[j] != ':' by {
            assert(w[j] == a[j]);
        }
        assert(first_colon_at(w, a.len() as int));
        let k = choose|k: int| first_colon_at(w, k);
        assert(k == a.len());
    }
}

/// A command written as `id:pulse`, as `format_commands` writes each one,
/// reads back as the same command.
pub proof fn command_text_reads_back(c: JointCommand)
    ensures
        joint_command_value(command_text(c)) == Ok::<JointCommand, Seq<char>>(c),
{
    let id_text = decimal_chars(c.id.0 as nat);
    let pulse_text = decimal_chars(c.pulse.0 as nat);
    let s = command_text(c);
    let k = id_text.len() as int;
    lemma_decimal_digits(c.id.0 as nat);
    decimal_reads_back(c.id.0 as u16);
    decimal_reads_back(c.pulse.0);
    assert forall|j: int| 0 <= j < k implies s[j] != ':' by {
        assert(s[j] == id_text[j]);
        assert(is_digit(id_text[j]));
    }
    assert(first_colon_at(s, k));
    assert(first_colon(s) == Some(k));
    assert(s.take(k) =~= id_text);
    assert(s.skip(k + 1) =~= pulse_text);
}

/// A `, ` starts at `j` in `s`.
pub open spec fn separator_at(s: Seq<char>, j: int) -> bool {
    0 <= j && j + 1 < s.len() && s[j] == ',' && s[j + 1] == ' '
}

/// `k` is the start of the last `, ` in `s`.
pub open spec fn last_separator_at(s: Seq<char>, k: int) -> bool {
    separator_at(s, k) && forall|j: int| k < j ==> !#[trigger] separator_at(s, j)
}

/// The pieces of `s` between the occurrences of `, ` (as `str::split(", ")`
/// gives them; the separator cannot overlap itself, so cutting at the last
/// occurrence first gives the same pieces).
pub open spec fn split_pieces(s: Seq<char>) -> Seq<Seq<char>>
    decreases s.len(),
{
    if exists|k: int| last_separator_at(s, k) {
        let k = choose|k: int| last_separator_at(s, k);
        split_pieces(s.take(k)) + seq![s.skip(k + 2)]
    } else {
        seq![s]
    }
}

proof fn lemma_command_text_has_no_comma(c: JointCommand)
    ensures
        forall|i: int| 0 <= i < command_text(c).len() ==> command_text(c)[i] != ',',
{
    let a = decimal_chars(c.id.0 as nat);
    let b = decimal_chars(c.pulse.0 as nat);
    lemma_decimal_digits(c.id.0 as nat);
    lemma_decimal_digits(c.pulse.0 as nat);
    let t = command_text(c);
    assert forall|i: int| 0 <= i < t.len() implies t[i] != ',' by {
        if i < a.len() {
            assert(t[i] == a[i]);
            assert(is_digit(a[i]));
        } else if i == a.len() {
            assert(t[i] == ':');
        } else {
            assert(t[i] == b[i - a.len() - 1]);
            assert(is_digit(b[i - a.len() - 1]));
        }
    }
}

/// Splitting the text of a non-empty command list at `, ` gives each
/// command's `id:pulse` text, and each piece reads back as its command.
pub proof fn commands_text_reads_back(cmds: Seq<JointCommand>)
    requires
        cmds.len() > 0,
    ensures
        split_pieces(commands_text(cmds)) == cmds.map_values(|c: JointCommand| command_text(c)),
        split_pieces(commands_text(cmds)).map_values(|t: Seq<char>| joint_command_value(t))
            == cmds.map_values(|c: JointCommand| Ok::<JointCommand, Seq<char>>(c)),
    decreases cmds.len(),
{
    let s = commands_text(cmds);
    let last = command_text(cmds.last());
    lemma_command_text_has_no_comma(cmds.last());
    if cmds.len() == 1 {
        assert(s == last);
        assert(!exists|k: int| last_separator_at(s, k));
        assert(split_pieces(s) =~= cmds.map_values(|c: JointCommand| command_text(c)));
    } else {
        let init = cmds.drop_last();
        let t = commands_text(init);
        commands_text_reads_back(init);
        let k = t.len() as int;
        reveal_strlit(", ");
        assert(", "@ =~= seq![',', ' ']);
        assert(s =~= t + ", "@ + last);
        assert forall|j: int| k < j implies !#[trigger] separator_at(s, j) by {
            if j == k + 1 {
                assert(s[j] == ' ');
            } else if j + 1 < s.len() {
                assert(s[j] == last[j - k - 2]);
            }
        }
        assert(last_separator_at(s, k));
        let k2 = choose|k2: int| last_separator_at(s, k2);
        assert(k2 == k);
        assert(s.take(k) =~= t);
        assert(s.skip(k + 2) =~= last);
        assert(split_pieces(s) =~= cmds.map_values(|c: JointCommand| command_text(c)));
    }
    let pieces = split_pieces(s);
    assert forall|i: int| 0 <= i < cmds.len() implies joint_command_value(pieces[i]) == Ok::<
        JointCommand,
        Seq<char>,
    >(cmds[i]) by {
        command_text_reads_back(cmds[i]);
    }
    assert(pieces.map_values(|t: Seq<char>| joint_command_value(t)) =~= cmds.map_values(
        |c: JointCommand| Ok::<JointCommand, Seq<char>>(c),
    ));
}

} // verus!
