//! Parsed commands and their translation into events.
//!
//! One log line has the shape `<frame> <NAME> [<key>:<value> ...]`: an
//! unsigned frame number, an event name, and whitespace-separated
//! arguments each split once on `:`. A malformed argument is skipped while
//! the rest of the line is still used; a missing frame or name makes the
//! whole line unparseable.

use vstd::prelude::*;

use crate::bytes::{
    bytes_eq, copy_bytes, lemma_split_len, parse_fixed, parse_u64, spec_parse_fixed,
    spec_parse_u64, spec_split, split_bytes,
};
use crate::event::{BPActionType, BPSimEvent};
use crate::units::{trunc_div, POWER_DURATION_US, SCALE};

verus! {

/// One named argument of a command: a key and its fixed-point value.
struct CommandArg {
    name: Vec<u8>,
    value: i64,
}

/// The mathematical content of a parsed command.
pub ghost struct CommandModel {
    pub game_frame: u64,
    pub event_name: Seq<u8>,
    pub command_args: Seq<(Seq<u8>, i64)>,
}

/// The arguments as the model sees them, in line order.
spec fn spec_args_view(args: Seq<CommandArg>) -> Seq<(Seq<u8>, i64)> {
    args.map_values(|a: CommandArg| (a.name@, a.value))
}

/// One log line parsed into its frame number, event name and arguments.
pub struct BPCommand {
    game_frame: u64,
    event_name: Vec<u8>,
    command_args: Vec<CommandArg>,
}

impl View for BPCommand {
    type V = CommandModel;

    closed spec fn view(&self) -> CommandModel {
        CommandModel {
            game_frame: self.game_frame,
            event_name: self.event_name@,
            command_args: spec_args_view(self.command_args@),
        }
    }
}

/// The argument list a token sequence denotes: each token is split once
/// on `:`; one with no value half, or whose value fails to parse, is
/// skipped.
pub open spec fn spec_args(toks: Seq<Seq<u8>>) -> Seq<(Seq<u8>, i64)>
    decreases toks.len(),
{
    if toks.len() == 0 {
        Seq::empty()
    } else {
        let rest = spec_args(toks.skip(1));
        let ps = spec_split(toks[0], 58);
        if ps.len() < 2 {
            rest
        } else {
            match spec_parse_fixed(ps[1]) {
                None => rest,
                Some(v) => seq![(ps[0], v)].add(rest),
            }
        }
    }
}

/// The command a log line denotes: `None` for an empty line, a line of
/// one newline, a missing or non-numeric frame, or a missing name.
pub open spec fn spec_parse_command(line: Seq<u8>) -> Option<CommandModel> {
    if line.len() == 0 {
        None
    } else if line.len() == 1 && line[0] == 10 {
        None
    } else {
        let toks = spec_split(line, 32);
        match spec_parse_u64(toks[0]) {
            None => None,
            Some(frame) => if toks.len() < 2 {
                None
            } else {
                Some(
                    CommandModel {
                        game_frame: frame,
                        event_name: toks[1],
                        command_args: spec_args(toks.skip(2)),
                    },
                )
            },
        }
    }
}

/// The value stored under a key: the latest occurrence wins, as inserting
/// into a map in line order would have it.
pub open spec fn spec_arg_lookup(args: Seq<(Seq<u8>, i64)>, key: Seq<u8>) -> Option<i64>
    decreases args.len(),
{
    if args.len() == 0 {
        None
    } else if args.last().0 == key {
        Some(args.last().1)
    } else {
        spec_arg_lookup(args.drop_last(), key)
    }
}

/// The bytes of `RESET`.
pub open spec fn spec_reset_name() -> Seq<u8> {
    seq![82u8, 69u8, 83u8, 69u8, 84u8]
}

/// The bytes of `VIBRATE`.
pub open spec fn spec_vibrate_name() -> Seq<u8> {
    seq![86u8, 73u8, 66u8, 82u8, 65u8, 84u8, 69u8]
}

/// The bytes of `POWER`.
pub open spec fn spec_power_name() -> Seq<u8> {
    seq![80u8, 79u8, 87u8, 69u8, 82u8]
}

/// The bytes of `Duration`.
pub open spec fn spec_duration_key() -> Seq<u8> {
    seq![68u8, 117u8, 114u8, 97u8, 116u8, 105u8, 111u8, 110u8]
}

/// The bytes of `Strength`.
pub open spec fn spec_strength_key() -> Seq<u8> {
    seq![83u8, 116u8, 114u8, 101u8, 110u8, 103u8, 116u8, 104u8]
}

/// The bytes of `Motor`.
pub open spec fn spec_motor_key() -> Seq<u8> {
    seq![77u8, 111u8, 116u8, 111u8, 114u8]
}

/// A fixed-point value truncated toward zero to a whole motor index,
/// saturating at the `i8` range.
pub open spec fn spec_motor_index(v: i64) -> i8 {
    let w = trunc_div(v as int, SCALE as int);
    if w < -128 {
        -128i8
    } else if w > 127 {
        127i8
    } else {
        w as i8
    }
}

/// The event a command denotes, if any: `RESET` gives the terminal stop
/// event; `VIBRATE` needs `Duration` (non-negative), `Strength` and
/// `Motor`; `POWER` needs `Strength` and `Motor` and always lives for the
/// fixed power duration. Anything else, or a missing requirement, gives
/// nothing.
pub open spec fn spec_to_event(c: CommandModel) -> Option<BPSimEvent> {
    if c.event_name == spec_reset_name() {
        Some(BPSimEvent { finished: true, time_remaining_us: 0u64, action: BPActionType::Stop })
    } else if c.event_name == spec_vibrate_name() {
        match spec_arg_lookup(c.command_args, spec_duration_key()) {
            None => None,
            Some(d) => if d < 0 {
                None
            } else {
                match spec_arg_lookup(c.command_args, spec_strength_key()) {
                    None => None,
                    Some(s) => match spec_arg_lookup(c.command_args, spec_motor_key()) {
                        None => None,
                        Some(m) => Some(
                            BPSimEvent {
                                finished: false,
                                time_remaining_us: d as u64,
                                action: BPActionType::Vibrate {
                                    strength: s,
                                    motor: spec_motor_index(m),
                                },
                            },
                        ),
                    },
                }
            },
        }
    } else if c.event_name == spec_power_name() {
        match spec_arg_lookup(c.command_args, spec_strength_key()) {
            None => None,
            Some(s) => match spec_arg_lookup(c.command_args, spec_motor_key()) {
                None => None,
                Some(m) => Some(
                    BPSimEvent {
                        finished: false,
                        time_remaining_us: POWER_DURATION_US,
                        action: BPActionType::Vibrate { strength: s, motor: spec_motor_index(m) },
                    },
                ),
            },
        }
    } else {
        None
    }
}

/// Whether the name is `RESET`.
fn is_reset(name: &[u8]) -> (r: bool)
    ensures
        r <==> name@ == spec_reset_name(),
{
    let r = name.len() == 5 && name[0] == 82 && name[1] == 69 && name[2] == 83 && name[3] == 69
        && name[4] == 84;
    proof {
        if r {
            assert(name@ =~= spec_reset_name());
        }
    }
    r
}

/// Whether the name is `VIBRATE`.
fn is_vibrate(name: &[u8]) -> (r: bool)
    ensures
        r <==> name@ == spec_vibrate_name(),
{
    let r = name.len() == 7 && name[0] == 86 && name[1] == 73 && name[2] == 66 && name[3] == 82
        && name[4] == 65 && name[5] == 84 && name[6] == 69;
    proof {
        if r {
            assert(name@ =~= spec_vibrate_name());
        }
    }
    r
}

/// Whether the name is `POWER`.
fn is_power(name: &[u8]) -> (r: bool)
    ensures
        r <==> name@ == spec_power_name(),
{
    let r = name.len() == 5 && name[0] == 80 && name[1] == 79 && name[2] == 87 && name[3] == 69
        && name[4] == 82;
    proof {
        if r {
            assert(name@ =~= spec_power_name());
        }
    }
    r
}

/// The key `Duration` as bytes.
fn duration_key() -> (k: Vec<u8>)
    ensures
        k@ == spec_duration_key(),
{
    let mut k: Vec<u8> = Vec::new();
    k.push(68);
    k.push(117);
    k.push(114);
    k.push(97);
    k.push(116);
    k.push(105);
    k.push(111);
    k.push(110);
    proof {
        assert(k@ =~= spec_duration_key());
    }
    k
}

/// The key `Strength` as bytes.
fn strength_key() -> (k: Vec<u8>)
    ensures
        k@ == spec_strength_key(),
{
    let mut k: Vec<u8> = Vec::new();
    k.push(83);
    k.push(116);
    k.push(114);
    k.push(101);
    k.push(110);
    k.push(103);
    k.push(116);
    k.push(104);
    proof {
        assert(k@ =~= spec_strength_key());
    }
    k
}

/// The key `Motor` as bytes.
fn motor_key() -> (k: Vec<u8>)
    ensures
        k@ == spec_motor_key(),
{
    let mut k: Vec<u8> = Vec::new();
    k.push(77);
    k.push(111);
    k.push(116);
    k.push(111);
    k.push(114);
    proof {
        assert(k@ =~= spec_motor_key());
    }
    k
}

/// Truncates a fixed-point value to a whole motor index, saturating at
/// the `i8` range.
fn motor_index(v: i64) -> (r: i8)
    ensures
        r == spec_motor_index(v),
{
    if v >= 0 {
        let q: u64 = (v as u64) / 1_000_000u64;
        if q > 127 {
            127
        } else {
            q as i8
        }
    } else {
        let av: u128 = (-(v as i128)) as u128;
        let q: u128 = av / 1_000_000u128;
        if q > 128 {
            -128
        } else {
            let w: i64 = -(q as i64);
            w as i8
        }
    }
}

impl BPCommand {
    /// The frame number the command was logged for.
    pub fn game_frame(&self) -> (r: u64)
        ensures
            r == self@.game_frame,
    {
        self.game_frame
    }

    /// Parses one log line. An empty line or a single newline is a silent
    /// no-op; a missing or non-numeric frame, or a missing event name, is
    /// a parse failure; a malformed argument is skipped while the rest of
    /// the line is still parsed.
    pub fn new(command_string: &[u8]) -> (r: Option<BPCommand>)
        ensures
            match spec_parse_command(command_string@) {
                None => r is None,
                Some(m) => r matches Some(c) && c@ == m,
            },
    {
        let n = command_string.len();
        if n == 0 {
            return None;
        }
        if n == 1 && command_string[0] == 10 {
            return None;
        }
        let toks = split_bytes(command_string, 32);
        let ghost toksm = spec_split(command_string@, 32);
        proof {
            lemma_split_len(command_string@, 32);
        }
        let frame = match parse_u64(toks[0].as_slice()) {
            None => {
                return None;
            },
            Some(f) => f,
        };
        if toks.len() < 2 {
            return None;
        }
        let event_name = copy_bytes(toks[1].as_slice());
        let mut args: Vec<CommandArg> = Vec::new();
        let mut i: usize = 2;
        proof {
            assert(spec_args_view(args@) =~= Seq::<(Seq<u8>, i64)>::empty());
            assert(spec_args(toksm.skip(2)) =~= spec_args_view(args@).add(
                spec_args(toksm.skip(2)),
            ));
        }
        while i < toks.len()
            invariant
                2 <= i <= toks@.len(),
                toks@.len() == toksm.len(),
                forall|k: int| 0 <= k < toks@.len() ==> #[trigger] toks@[k]@ == toksm[k],
                spec_args(toksm.skip(2)) == spec_args_view(args@).add(
                    spec_args(toksm.skip(i as int)),
                ),
            decreases toks@.len() - i,
        {
            let ghost argsm_pre = spec_args_view(args@);
            proof {
                assert(toksm.skip(i as int).len() > 0);
                assert(toksm.skip(i as int)[0] == toksm[i as int]);
                assert(toksm.skip(i as int).skip(1) =~= toksm.skip(i + 1));
            }
            let ps = split_bytes(toks[i].as_slice(), 58);
            let ghost psm = spec_split(toksm[i as int], 58);
            if ps.len() >= 2 {
                match parse_fixed(ps[1].as_slice()) {
                    None => {},
                    Some(v) => {
                        let name = copy_bytes(ps[0].as_slice());
                        args.push(CommandArg { name: name, value: v });
                        proof {
                            assert(spec_args_view(args@) =~~= argsm_pre.push((psm[0], v)));
                            assert(argsm_pre.push((psm[0], v)).add(
                                spec_args(toksm.skip(i + 1)),
                            ) =~~= argsm_pre.add(
                                seq![(psm[0], v)].add(spec_args(toksm.skip(i + 1))),
                            ));
                        }
                    },
                }
            }
            i = i + 1;
        }
        proof {
            assert(toksm.skip(toksm.len() as int).len() == 0);
            assert(spec_args_view(args@).add(Seq::<(Seq<u8>, i64)>::empty()) =~~= spec_args_view(
                args@,
            ));
        }
        let cmd = BPCommand { game_frame: frame, event_name: event_name, command_args: args };
        Some(cmd)
    }

    /// The value stored under a key, the latest occurrence winning.
    fn get_arg(&self, key: &[u8]) -> (r: Option<i64>)
        ensures
            r == spec_arg_lookup(self@.command_args, key@),
    {
        let ghost argsm = self@.command_args;
        let n = self.command_args.len();
        let mut i: usize = n;
        proof {
            assert(argsm.take(n as int) =~= argsm);
        }
        while i > 0
            invariant
                i <= n,
                n == self.command_args@.len(),
                argsm == self@.command_args,
                argsm.len() == n,
                spec_arg_lookup(argsm, key@) == spec_arg_lookup(argsm.take(i as int), key@),
            decreases i,
        {
            i = i - 1;
            let a = &self.command_args[i];
            proof {
                assert(argsm[i as int] == (a.name@, a.value));
                assert(argsm.take(i + 1).last() == argsm[i as int]);
                assert(argsm.take(i + 1).drop_last() =~= argsm.take(i as int));
            }
            if bytes_eq(a.name.as_slice(), key) {
                return Some(a.value);
            }
        }
        proof {
            assert(argsm.take(0).len() == 0);
        }
        None
    }

    /// Converts the command to at most one event, by the rules of
    /// [`spec_to_event`].
    pub fn to_event(&self) -> (r: Option<BPSimEvent>)
        ensures
            r == spec_to_event(self@),
    {
        if is_reset(self.event_name.as_slice()) {
            return Some(BPSimEvent::new_stop_event());
        }
        if is_vibrate(self.event_name.as_slice()) {
            let duration = match self.get_arg(duration_key().as_slice()) {
                None => {
                    return None;
                },
                Some(d) => d,
            };
            if duration < 0 {
                return None;
            }
            let strength = match self.get_arg(strength_key().as_slice()) {
                None => {
                    return None;
                },
                Some(s) => s,
            };
            let motor = match self.get_arg(motor_key().as_slice()) {
                None => {
                    return None;
                },
                Some(m) => m,
            };
            return Some(
                BPSimEvent::new(
                    duration as u64,
                    BPActionType::Vibrate { strength: strength, motor: motor_index(motor) },
                ),
            );
        }
        if is_power(self.event_name.as_slice()) {
            let strength = match self.get_arg(strength_key().as_slice()) {
                None => {
                    return None;
                },
                Some(s) => s,
            };
            let motor = match self.get_arg(motor_key().as_slice()) {
                None => {
                    return None;
                },
                Some(m) => m,
            };
            return Some(
                BPSimEvent::new(
                    POWER_DURATION_US,
                    BPActionType::Vibrate { strength: strength, motor: motor_index(motor) },
                ),
            );
        }
        None
    }
}

} // verus!
