//! The command dispatcher: turning a decoded RESP array into a typed
//! command.
//!
//! The first element names the command (matched by its ASCII uppercasing);
//! the remaining elements are its arguments, validated per command. Anything
//! else — unknown verb, wrong arity, wrong argument type, or an unparseable
//! `PX` count — yields no command, which the server answers with the error
//! reply.

use vstd::prelude::*;

use crate::ascii::{
    all_digits, digits_to_nat, matches_upper, parse_u64, upper, SP,
};
use crate::encoding::push_bytes;
use crate::response::{RespData, Value};

verus! {

/// A set request: a key, a value, and an optional time-to-live in
/// milliseconds.
pub struct SetCommand {
    pub key: Vec<u8>,
    pub value: Vec<u8>,
    pub px: Option<u64>,
}

impl SetCommand {
    pub fn new(key: Vec<u8>, value: Vec<u8>, px: Option<u64>) -> (r: Self)
        ensures
            r.key == key,
            r.value == value,
            r.px == px,
    {
        Self { key, value, px }
    }
}

/// A typed command, as the dispatcher hands it to the server.
pub enum Command {
    Ping(Vec<u8>),
    Echo(Vec<u8>),
    Put(SetCommand),
    Get(Vec<u8>),
    Config(Vec<u8>),
    Keys(Vec<u8>),
}

/// Ghost model of a typed command.
pub enum CommandModel {
    Ping(Seq<u8>),
    Echo(Seq<u8>),
    Put { key: Seq<u8>, value: Seq<u8>, px: Option<u64> },
    Get(Seq<u8>),
    ConfigGet(Seq<u8>),
    Keys(Seq<u8>),
}

impl Command {
    pub open spec fn model(self) -> CommandModel {
        match self {
            Command::Ping(p) => CommandModel::Ping(p@),
            Command::Echo(m) => CommandModel::Echo(m@),
            Command::Put(sc) => CommandModel::Put { key: sc.key@, value: sc.value@, px: sc.px },
            Command::Get(k) => CommandModel::Get(k@),
            Command::Config(p) => CommandModel::ConfigGet(p@),
            Command::Keys(p) => CommandModel::Keys(p@),
        }
    }
}

pub open spec fn ping_name() -> Seq<u8> {
    seq![80u8, 73, 78, 71]
}

pub open spec fn pong_text() -> Seq<u8> {
    seq![80u8, 79, 78, 71]
}

pub open spec fn echo_name() -> Seq<u8> {
    seq![69u8, 67, 72, 79]
}

pub open spec fn set_name() -> Seq<u8> {
    seq![83u8, 69, 84]
}

pub open spec fn get_name() -> Seq<u8> {
    seq![71u8, 69, 84]
}

pub open spec fn config_name() -> Seq<u8> {
    seq![67u8, 79, 78, 70, 73, 71]
}

pub open spec fn keys_name() -> Seq<u8> {
    seq![75u8, 69, 89, 83]
}

pub open spec fn px_name() -> Seq<u8> {
    seq![80u8, 88]
}

pub open spec fn ok_text() -> Seq<u8> {
    seq![79u8, 75]
}

/// The text an argument contributes to an `ECHO` reply: its bytes for a
/// string, nothing for an array.
pub open spec fn text_of(d: RespData) -> Seq<u8> {
    match d {
        RespData::Str(b) => b,
        RespData::Arr(_) => Seq::empty(),
    }
}

/// The space-joined text of the `ECHO` arguments.
pub open spec fn echo_join(args: Seq<RespData>) -> Seq<u8>
    decreases args.len(),
{
    if args.len() == 0 {
        Seq::empty()
    } else if args.len() == 1 {
        text_of(args[0])
    } else {
        echo_join(args.drop_last()) + seq![SP] + text_of(args.last())
    }
}

/// What command a name and argument list denote, if any.
pub open spec fn parse_command(name: Seq<u8>, args: Seq<RespData>) -> Option<CommandModel> {
    let up = upper(name);
    if up == ping_name() {
        if args.len() == 0 {
            Some(CommandModel::Ping(pong_text()))
        } else {
            None
        }
    } else if up == echo_name() {
        if args.len() >= 1 {
            Some(CommandModel::Echo(echo_join(args)))
        } else {
            None
        }
    } else if up == set_name() {
        if args.len() == 2 {
            match (args[0], args[1]) {
                (RespData::Str(k), RespData::Str(v)) => Some(
                    CommandModel::Put { key: k, value: v, px: None },
                ),
                _ => None,
            }
        } else if args.len() == 4 {
            match (args[0], args[1], args[2], args[3]) {
                (RespData::Str(k), RespData::Str(v), RespData::Str(p), RespData::Str(ms)) => {
                    if upper(p) == px_name() && ms.len() > 0 && all_digits(ms) && digits_to_nat(
                        ms,
                    ) <= u64::MAX {
                        Some(
                            CommandModel::Put {
                                key: k,
                                value: v,
                                px: Some(digits_to_nat(ms) as u64),
                            },
                        )
                    } else {
                        None
                    }
                }
                _ => None,
            }
        } else {
            None
        }
    } else if up == get_name() {
        if args.len() == 1 {
            match args[0] {
                RespData::Str(k) => Some(CommandModel::Get(k)),
                _ => None,
            }
        } else {
            None
        }
    } else if up == config_name() {
        if args.len() == 2 {
            match (args[0], args[1]) {
                (RespData::Str(sub), RespData::Str(param)) => {
                    if upper(sub) == get_name() {
                        Some(CommandModel::ConfigGet(param))
                    } else {
                        None
                    }
                }
                _ => None,
            }
        } else {
            None
        }
    } else if up == keys_name() {
        if args.len() == 1 {
            match args[0] {
                RespData::Str(p) => Some(CommandModel::Keys(p)),
                _ => None,
            }
        } else {
            None
        }
    } else {
        None
    }
}

/// What command a whole decoded request array denotes, if any: the first
/// element must be a string naming the command.
pub open spec fn dispatch(values: Seq<RespData>) -> Option<CommandModel> {
    if values.len() == 0 {
        None
    } else {
        match values[0] {
            RespData::Str(name) => parse_command(name, values.drop_first()),
            RespData::Arr(_) => None,
        }
    }
}

/// The bytes of `PONG`.
fn pong_vec() -> (r: Vec<u8>)
    ensures
        r@ == pong_text(),
{
    let mut v: Vec<u8> = Vec::new();
    v.push(80);
    v.push(79);
    v.push(78);
    v.push(71);
    proof {
        assert(v@ =~= pong_text());
    }
    v
}

/// The space-joined text of the arguments, arrays contributing nothing.
fn join_args(args: &[Value]) -> (r: Vec<u8>)
    ensures
        r@ == echo_join(Value::model_list(args@)),
{
    let ghost ms = Value::model_list(args@);
    proof {
        crate::response::lemma_model_list(args@);
    }
    let mut out: Vec<u8> = Vec::new();
    let mut i: usize = 0;
    proof {
        assert(ms.take(0) =~= Seq::<RespData>::empty());
    }
    while i < args.len()
        invariant
            0 <= i <= args@.len(),
            ms == Value::model_list(args@),
            ms.len() == args@.len(),
            forall|j: int| 0 <= j < args@.len() ==> #[trigger] ms[j] == args@[j].model(),
            out@ == echo_join(ms.take(i as int)),
        decreases args@.len() - i,
    {
        if i > 0 {
            out.push(SP);
        }
        match &args[i] {
            Value::String(b) => {
                push_bytes(&mut out, b.as_slice());
            }
            Value::Array(_) => {}
        }
        proof {
            assert(ms.take(i + 1).drop_last() =~= ms.take(i as int));
            assert(ms.take(i + 1).last() == ms[i as int]);
            if i == 0 {
                assert(out@ =~= echo_join(ms.take(1)));
            } else {
                assert(out@ =~= echo_join(ms.take(i as int)) + seq![SP] + text_of(
                    ms[i as int],
                ));
            }
        }
        i = i + 1;
    }
    proof {
        assert(ms.take(i as int) =~= ms);
    }
    out
}

impl Command {
    /// Maps a command name and its arguments to a typed command; `None` for
    /// anything the server does not understand.
    pub fn process(name: &[u8], args: &[Value]) -> (r: Option<Command>)
        ensures
            match r {
                Some(c) => parse_command(name@, Value::model_list(args@)) == Some(c.model()),
                None => parse_command(name@, Value::model_list(args@)) is None,
            },
    {
        let ghost ms = Value::model_list(args@);
        proof {
            crate::response::lemma_model_list(args@);
        }
        let ping_pat: [u8; 4] = [80, 73, 78, 71];
        let echo_pat: [u8; 4] = [69, 67, 72, 79];
        let set_pat: [u8; 3] = [83, 69, 84];
        let get_pat: [u8; 3] = [71, 69, 84];
        let config_pat: [u8; 6] = [67, 79, 78, 70, 73, 71];
        let keys_pat: [u8; 4] = [75, 69, 89, 83];
        let px_pat: [u8; 2] = [80, 88];
        proof {
            assert(ping_pat@ =~= ping_name());
            assert(echo_pat@ =~= echo_name());
            assert(set_pat@ =~= set_name());
            assert(get_pat@ =~= get_name());
            assert(config_pat@ =~= config_name());
            assert(keys_pat@ =~= keys_name());
            assert(px_pat@ =~= px_name());
        }
        if matches_upper(name, ping_pat.as_slice()) {
            if args.len() == 0 {
                Some(Command::Ping(pong_vec()))
            } else {
                None
            }
        } else if matches_upper(name, echo_pat.as_slice()) {
            if args.len() >= 1 {
                Some(Command::Echo(join_args(args)))
            } else {
                None
            }
        } else if matches_upper(name, set_pat.as_slice()) {
            if args.len() == 2 {
                match (&args[0], &args[1]) {
                    (Value::String(k), Value::String(v)) => Some(
                        Command::Put(
                            SetCommand::new(
                                crate::ascii::copy_bytes(k.as_slice()),
                                crate::ascii::copy_bytes(v.as_slice()),
                                None,
                            ),
                        ),
                    ),
                    _ => None,
                }
            } else if args.len() == 4 {
                match (&args[0], &args[1], &args[2], &args[3]) {
                    (
                        Value::String(k),
                        Value::String(v),
                        Value::String(p),
                        Value::String(ms_arg),
                    ) => {
                        if !matches_upper(p.as_slice(), px_pat.as_slice()) {
                            return None;
                        }
                        match parse_u64(ms_arg.as_slice()) {
                            Some(px) => Some(
                                Command::Put(
                                    SetCommand::new(
                                        crate::ascii::copy_bytes(k.as_slice()),
                                        crate::ascii::copy_bytes(v.as_slice()),
                                        Some(px),
                                    ),
                                ),
                            ),
                            None => None,
                        }
                    }
                    _ => None,
                }
            } else {
                None
            }
        } else if matches_upper(name, get_pat.as_slice()) {
            if args.len() == 1 {
                match &args[0] {
                    Value::String(k) => Some(
                        Command::Get(crate::ascii::copy_bytes(k.as_slice())),
                    ),
                    _ => None,
                }
            } else {
                None
            }
        } else if matches_upper(name, config_pat.as_slice()) {
            if args.len() == 2 {
                match (&args[0], &args[1]) {
                    (Value::String(sub), Value::String(param)) => {
                        if matches_upper(sub.as_slice(), get_pat.as_slice()) {
                            Some(Command::Config(crate::ascii::copy_bytes(param.as_slice())))
                        } else {
                            None
                        }
                    }
                    _ => None,
                }
            } else {
                None
            }
        } else if matches_upper(name, keys_pat.as_slice()) {
            if args.len() == 1 {
                match &args[0] {
                    Value::String(p) => Some(
                        Command::Keys(crate::ascii::copy_bytes(p.as_slice())),
                    ),
                    _ => None,
                }
            } else {
                None
            }
        } else {
            None
        }
    }

    /// Dispatches a whole decoded request array.
    pub fn handle_command(values: &[Value]) -> (r: Option<Command>)
        ensures
            match r {
                Some(c) => dispatch(Value::model_list(values@)) == Some(c.model()),
                None => dispatch(Value::model_list(values@)) is None,
            },
    {
        proof {
            crate::response::lemma_model_list(values@);
        }
        if values.len() == 0 {
            return None;
        }
        match &values[0] {
            Value::String(name) => {
                let rest = &values[1..values.len()];
                proof {
                    assert(rest@ =~= values@.drop_first());
                    crate::response::lemma_model_list(rest@);
                    crate::response::lemma_model_list(values@);
                    assert(Value::model_list(rest@) =~= Value::model_list(
                        values@,
                    ).drop_first());
                }
                Command::process(name.as_slice(), rest)
            }
            Value::Array(_) => None,
        }
    }
}

} // verus!
