//! The typed commands of the server, and the parser that turns a decoded
//! protocol value into one.
//!
//! Only an array whose first element is a bulk string can be a command.
//! Command names match case-insensitively; the arguments of each command
//! stand in a fixed order, and every argument must be a bulk string.

use vstd::prelude::*;

use crate::command::argument::SetArguments;
use crate::command::resp::{
    deep_list, lemma_deep_list_index, lemma_deep_list_len, Resp, RespModel,
};
use crate::digits::{digits_val, is_digits, parse_u128};
use crate::text::{eq_ignore_case, lower};

pub mod argument;
pub mod resp;

verus! {

/// A parsed command.
#[derive(Debug)]
pub enum Command {
    Ping,
    Echo(String),
    SetCmd(SetArguments),
    Get(String),
    ConfigGet(String),
}

/// The model of a command.
pub enum CommandModel {
    Ping,
    Echo(Seq<char>),
    SetCmd { key: Seq<char>, value: Seq<char>, px: Option<u128> },
    Get(Seq<char>),
    ConfigGet(Seq<char>),
}

impl Command {
    /// The model of this command.
    pub open spec fn deep(self) -> CommandModel {
        match self {
            Command::Ping => CommandModel::Ping,
            Command::Echo(s) => CommandModel::Echo(s@),
            Command::SetCmd(a) => CommandModel::SetCmd { key: a.key@, value: a.value@, px: a.px },
            Command::Get(k) => CommandModel::Get(k@),
            Command::ConfigGet(k) => CommandModel::ConfigGet(k@),
        }
    }
}

/// Why a value could not be read as a command.
#[derive(Debug)]
pub enum CommandParseError {
    /// The value is not an array at all; it is handed back.
    Unrecognised(Resp),
    /// The array holds no command name.
    EmptyRespArray,
    /// The command name is not a bulk string.
    CommandName,
    /// No command of this name exists.
    UnknownCommandName(String),
    /// An argument has the wrong shape or does not parse.
    ArgumentType,
    /// A required argument is missing.
    MissingArgument,
    /// An optional flag of this name does not exist.
    UnknownArgument,
}

/// The model of a parse error.
pub enum CommandParseErrorModel {
    Unrecognised(RespModel),
    EmptyRespArray,
    CommandName,
    UnknownCommandName(Seq<char>),
    ArgumentType,
    MissingArgument,
    UnknownArgument,
}

impl CommandParseError {
    /// The model of this error.
    pub open spec fn deep(self) -> CommandParseErrorModel {
        match self {
            CommandParseError::Unrecognised(v) => CommandParseErrorModel::Unrecognised(v.deep()),
            CommandParseError::EmptyRespArray => CommandParseErrorModel::EmptyRespArray,
            CommandParseError::CommandName => CommandParseErrorModel::CommandName,
            CommandParseError::UnknownCommandName(s) => CommandParseErrorModel::UnknownCommandName(
                s@,
            ),
            CommandParseError::ArgumentType => CommandParseErrorModel::ArgumentType,
            CommandParseError::MissingArgument => CommandParseErrorModel::MissingArgument,
            CommandParseError::UnknownArgument => CommandParseErrorModel::UnknownArgument,
        }
    }
}

/// The bulk string at `i`: missing past the end, wrong shape otherwise.
pub open spec fn arg_at(items: Seq<RespModel>, i: int) -> Result<
    Seq<char>,
    CommandParseErrorModel,
> {
    if i >= items.len() {
        Err(CommandParseErrorModel::MissingArgument)
    } else {
        match items[i] {
            RespModel::BulkString(s) => Ok(s),
            _ => Err(CommandParseErrorModel::ArgumentType),
        }
    }
}

/// The optional flags that may not yet have been consumed.
pub open spec fn flags_rem(items: Seq<RespModel>, i: int) -> int {
    if i <= items.len() {
        items.len() - i
    } else {
        0
    }
}

/// The optional flag pairs of `SET` from index `i` on: each `PX` flag takes
/// a following non-negative decimal millisecond count, a later pair
/// overriding an earlier one; any other flag name is unknown.
pub open spec fn parse_px_args(items: Seq<RespModel>, i: int, acc: Option<u128>) -> Result<
    Option<u128>,
    CommandParseErrorModel,
>
    decreases flags_rem(items, i),
{
    if i >= items.len() {
        Ok(acc)
    } else {
        match items[i] {
            RespModel::BulkString(flag) => if lower(flag) == "px"@ {
                match arg_at(items, i + 1) {
                    Ok(num) => if num.len() > 0 && is_digits(num) && digits_val(num)
                        <= u128::MAX {
                        parse_px_args(items, i + 2, Some(digits_val(num) as u128))
                    } else {
                        Err(CommandParseErrorModel::ArgumentType)
                    },
                    Err(e) => Err(e),
                }
            } else {
                Err(CommandParseErrorModel::UnknownArgument)
            },
            _ => Err(CommandParseErrorModel::ArgumentType),
        }
    }
}

/// The command named by the first element, applied to the rest.
pub open spec fn parse_named(name: Seq<char>, items: Seq<RespModel>) -> Result<
    CommandModel,
    CommandParseErrorModel,
> {
    let lname = lower(name);
    if lname == "ping"@ {
        Ok(CommandModel::Ping)
    } else if lname == "echo"@ {
        match arg_at(items, 1) {
            Ok(s) => Ok(CommandModel::Echo(s)),
            Err(e) => Err(e),
        }
    } else if lname == "set"@ {
        match arg_at(items, 1) {
            Ok(key) => match arg_at(items, 2) {
                Ok(value) => match parse_px_args(items, 3, None) {
                    Ok(px) => Ok(CommandModel::SetCmd { key, value, px }),
                    Err(e) => Err(e),
                },
                Err(e) => Err(e),
            },
            Err(e) => Err(e),
        }
    } else if lname == "get"@ {
        match arg_at(items, 1) {
            Ok(k) => Ok(CommandModel::Get(k)),
            Err(e) => Err(e),
        }
    } else if lname == "config"@ {
        if items.len() < 2 {
            Err(CommandParseErrorModel::UnknownCommandName("config"@))
        } else {
            match items[1] {
                RespModel::BulkString(sub) => if lower(sub) == "get"@ {
                    match arg_at(items, 2) {
                        Ok(k) => Ok(CommandModel::ConfigGet(k)),
                        Err(e) => Err(e),
                    }
                } else {
                    Err(CommandParseErrorModel::UnknownCommandName(sub))
                },
                _ => Err(CommandParseErrorModel::ArgumentType),
            }
        }
    } else {
        Err(CommandParseErrorModel::UnknownCommandName(name))
    }
}

/// What parsing a protocol value yields: the command, or the first error.
pub open spec fn parse_command(v: RespModel) -> Result<CommandModel, CommandParseErrorModel> {
    match v {
        RespModel::Array(items) => {
            if items.len() == 0 {
                Err(CommandParseErrorModel::EmptyRespArray)
            } else {
                match items[0] {
                    RespModel::BulkString(name) => parse_named(name, items),
                    _ => Err(CommandParseErrorModel::CommandName),
                }
            }
        },
        _ => Err(CommandParseErrorModel::Unrecognised(v)),
    }
}

/// The bulk string carried by `resp`, or the argument-type error.
pub fn extract_bulk_string(resp: &Resp) -> (r: Result<String, CommandParseError>)
    ensures
        (match resp.deep() {
            RespModel::BulkString(s) => r matches Ok(b) && b@ == s,
            _ => r matches Err(e) && e.deep() == CommandParseErrorModel::ArgumentType,
        }),
{
    match resp {
        Resp::BulkString(bulk_string) => Ok(bulk_string.clone()),
        _ => Err(CommandParseError::ArgumentType),
    }
}

/// The bulk string at index `i` of the array, or the matching error.
pub fn next_bulk_string(array: &Vec<Resp>, i: usize) -> (r: Result<String, CommandParseError>)
    ensures
        (match arg_at(deep_list(array@), i as int) {
            Ok(s) => r matches Ok(b) && b@ == s && i < array@.len(),
            Err(e) => r matches Err(err) && err.deep() == e,
        }),
{
    proof {
        lemma_deep_list_len(array@);
    }
    if i >= array.len() {
        return Err(CommandParseError::MissingArgument);
    }
    proof {
        lemma_deep_list_index(array@, i as int);
    }
    extract_bulk_string(&array[i])
}

impl Command {
    /// Parses a decoded protocol value as a command.
    #[verifier::loop_isolation(false)]
    pub fn try_from(value: Resp) -> (r: Result<Command, CommandParseError>)
        ensures
            (match parse_command(value.deep()) {
                Ok(c) => r matches Ok(cmd) && cmd.deep() == c,
                Err(e) => r matches Err(err) && err.deep() == e,
            }),
    {
        proof {
            reveal_strlit("ping");
            reveal_strlit("echo");
            reveal_strlit("set");
            reveal_strlit("get");
            reveal_strlit("config");
            reveal_strlit("px");
            assert(lower("ping"@) =~= "ping"@);
            assert(lower("echo"@) =~= "echo"@);
            assert(lower("set"@) =~= "set"@);
            assert(lower("get"@) =~= "get"@);
            assert(lower("config"@) =~= "config"@);
            assert(lower("px"@) =~= "px"@);
        }
        match value {
            Resp::Array(array) => {
                let ghost items = deep_list(array@);
                proof {
                    lemma_deep_list_len(array@);
                }
                if array.len() == 0 {
                    return Err(CommandParseError::EmptyRespArray);
                }
                proof {
                    lemma_deep_list_index(array@, 0);
                }
                match &array[0] {
                    Resp::BulkString(name) => {
                        if eq_ignore_case(name.as_str(), "ping") {
                            Ok(Command::Ping)
                        } else if eq_ignore_case(name.as_str(), "echo") {
                            match next_bulk_string(&array, 1) {
                                Ok(echo) => Ok(Command::Echo(echo)),
                                Err(e) => Err(e),
                            }
                        } else if eq_ignore_case(name.as_str(), "set") {
                            match next_bulk_string(&array, 1) {
                                Ok(key) => match next_bulk_string(&array, 2) {
                                    Ok(set_value) => {
                                        let ghost key_model = key@;
                                        let ghost value_model = set_value@;
                                        let mut set_arguments = SetArguments::new(key, set_value);
                                        let mut i: usize = 3;
                                        while i < array.len()
                                            invariant
                                                3 <= i,
                                                set_arguments.key@ == key_model,
                                                set_arguments.value@ == value_model,
                                                parse_px_args(items, 3, None) == parse_px_args(
                                                    items,
                                                    i as int,
                                                    set_arguments.px,
                                                ),
                                            decreases array@.len() - i,
                                        {
                                            proof {
                                                lemma_deep_list_index(array@, i as int);
                                            }
                                            match &array[i] {
                                                Resp::BulkString(arg) => {
                                                    if eq_ignore_case(arg.as_str(), "px") {
                                                        match next_bulk_string(&array, i + 1) {
                                                            Ok(px_text) => {
                                                                match parse_u128(
                                                                    px_text.as_str(),
                                                                ) {
                                                                    Some(px) => {
                                                                        set_arguments.px = Some(
                                                                            px,
                                                                        );
                                                                        i = i + 2;
                                                                    },
                                                                    None => {
                                                                        return Err(
                                                                            CommandParseError::ArgumentType,
                                                                        );
                                                                    },
                                                                }
                                                            },
                                                            Err(e) => {
                                                                return Err(e);
                                                            },
                                                        }
                                                    } else {
                                                        return Err(
                                                            CommandParseError::UnknownArgument,
                                                        );
                                                    }
                                                },
                                                _ => {
                                                    return Err(CommandParseError::ArgumentType);
                                                },
                                            }
                                        }
                                        Ok(Command::SetCmd(set_arguments))
                                    },
                                    Err(e) => Err(e),
                                },
                                Err(e) => Err(e),
                            }
                        } else if eq_ignore_case(name.as_str(), "get") {
                            match next_bulk_string(&array, 1) {
                                Ok(key) => Ok(Command::Get(key)),
                                Err(e) => Err(e),
                            }
                        } else if eq_ignore_case(name.as_str(), "config") {
                            if array.len() < 2 {
                                return Err(
                                    CommandParseError::UnknownCommandName(
                                        String::from_str("config"),
                                    ),
                                );
                            }
                            proof {
                                lemma_deep_list_index(array@, 1);
                            }
                            match &array[1] {
                                Resp::BulkString(subcommand) => {
                                    if eq_ignore_case(subcommand.as_str(), "get") {
                                        match next_bulk_string(&array, 2) {
                                            Ok(key) => Ok(Command::ConfigGet(key)),
                                            Err(e) => Err(e),
                                        }
                                    } else {
                                        Err(
                                            CommandParseError::UnknownCommandName(
                                                subcommand.clone(),
                                            ),
                                        )
                                    }
                                },
                                _ => Err(CommandParseError::ArgumentType),
                            }
                        } else {
                            Err(CommandParseError::UnknownCommandName(name.clone()))
                        }
                    },
                    _ => Err(CommandParseError::CommandName),
                }
            },
            other => Err(CommandParseError::Unrecognised(other)),
        }
    }
}

} // verus!
