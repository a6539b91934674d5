//! A minimal in-memory key-value server core: the wire-protocol value codec,
//! the command parser, the expiring key-value store, and the dispatcher that
//! maps a parsed command to a store operation and a response value.
//!
//! Transport plumbing (sockets, the line source, timers) lives outside this
//! crate; every function here is pure computation over plain values and is
//! verified against its contract. Time enters as an explicit millisecond
//! reading of the caller's monotonic clock.

use vstd::prelude::*;

pub mod command;
pub mod config;
pub mod digits;
pub mod store;
pub mod text;

use crate::command::resp::{deep_list, lemma_deep_list_index, lemma_deep_list_len, Resp, RespModel};
use crate::command::{Command, CommandModel};
use crate::command::argument::SetArguments;
use crate::store::{get_model, set_model, Px, Store};

pub use crate::config::Config;

verus! {

/// The response owed to `PING`.
pub fn handle_ping() -> (r: Resp)
    ensures
        r.deep() == RespModel::SimpleString("PONG"@),
{
    Resp::SimpleString(String::from_str("PONG"))
}

/// The response owed to `ECHO`: the argument as a bulk string.
pub fn handle_echo(echo: String) -> (r: Resp)
    ensures
        r.deep() == RespModel::BulkString(echo@),
{
    Resp::BulkString(echo)
}

/// Applies `SET` to the store and returns its response: the entry is
/// written, with the deadline `now_ms + px` when `PX` was given.
pub fn handle_set(store: &mut Store, set_arguments: SetArguments, now_ms: u64) -> (r: Resp)
    requires
        old(store).wf(),
    ensures
        final(store).wf(),
        final(store)@ == set_model(
            old(store)@,
            set_arguments.key@,
            set_arguments.value@,
            (match set_arguments.px {
                Some(ms) => Some(Px { instant: now_ms, miliseconds: ms }),
                None => None,
            }),
        ),
        final(store).dir_model() == old(store).dir_model(),
        final(store).file_model() == old(store).file_model(),
        r.deep() == RespModel::SimpleString("OK"@),
{
    store.set(set_arguments.key, set_arguments.value, set_arguments.px, now_ms);
    Resp::SimpleString(String::from_str("OK"))
}

/// The response owed to `GET`: the live value as a bulk string, or the null
/// bulk string for an absent or expired key.
pub fn handle_get(store: &Store, key: String, now_ms: u64) -> (r: Resp)
    requires
        store.wf(),
    ensures
        r.deep() == (match get_model(store@, key@, now_ms as int) {
            Some(v) => RespModel::BulkString(v),
            None => RespModel::NullBulkString,
        }),
{
    match store.get(key.as_str(), now_ms) {
        Some(stored) => Resp::BulkString(stored.clone()),
        None => Resp::NullBulkString,
    }
}

/// What a configuration key resolves to.
pub open spec fn config_lookup(store: Store, key: Seq<char>) -> Option<Seq<char>> {
    if key == "dir"@ {
        store.dir_model()
    } else if key == "dbfilename"@ {
        store.file_model()
    } else {
        None
    }
}

/// The response owed to `CONFIG GET`: a two-element array of the key and
/// its configured value, the latter the null bulk string when unset.
pub fn handle_config_get(store: &Store, key: String) -> (r: Resp)
    ensures
        r.deep() == RespModel::Array(
            seq![
                RespModel::BulkString(key@),
                (match config_lookup(*store, key@) {
                    Some(v) => RespModel::BulkString(v),
                    None => RespModel::NullBulkString,
                }),
            ],
        ),
{
    let config_value = match store.get_config(key.as_str()) {
        Some(v) => Resp::BulkString(v.clone()),
        None => Resp::NullBulkString,
    };
    proof {
        assert(config_value.deep() == (match config_lookup(*store, key@) {
            Some(cv) => RespModel::BulkString(cv),
            None => RespModel::NullBulkString,
        }));
    }
    let ghost value_model = config_value.deep();
    let mut parts: Vec<Resp> = Vec::new();
    let ghost key_model = key@;
    parts.push(Resp::BulkString(key));
    parts.push(config_value);
    proof {
        lemma_deep_list_len(parts@);
        lemma_deep_list_index(parts@, 0);
        lemma_deep_list_index(parts@, 1);
        assert(deep_list(parts@) =~= seq![RespModel::BulkString(key_model), value_model]);
    }
    let r = Resp::Array(parts);
    proof {
        assert(r.deep() =~~= RespModel::Array(
            seq![RespModel::BulkString(key_model), value_model],
        ));
        assert(seq![RespModel::BulkString(key_model), value_model] == seq![
            RespModel::BulkString(key_model),
            (match config_lookup(*store, key_model) {
                Some(v) => RespModel::BulkString(v),
                None => RespModel::NullBulkString,
            }),
        ]);
    }
    r
}

/// The dispatcher: applies the command's store effect, if it has one, and
/// returns the response value owed for it.
pub fn handle_command(store: &mut Store, command: Command, now_ms: u64) -> (r: Resp)
    requires
        old(store).wf(),
    ensures
        final(store).wf(),
        final(store).dir_model() == old(store).dir_model(),
        final(store).file_model() == old(store).file_model(),
        (match command.deep() {
            CommandModel::Ping => final(store)@ == old(store)@ && r.deep()
                == RespModel::SimpleString("PONG"@),
            CommandModel::Echo(s) => final(store)@ == old(store)@ && r.deep()
                == RespModel::BulkString(s),
            CommandModel::SetCmd { key, value, px } => final(store)@ == set_model(
                old(store)@,
                key,
                value,
                (match px {
                    Some(ms) => Some(Px { instant: now_ms, miliseconds: ms }),
                    None => None,
                }),
            ) && r.deep() == RespModel::SimpleString("OK"@),
            CommandModel::Get(k) => final(store)@ == old(store)@ && r.deep() == (match get_model(
                old(store)@,
                k,
                now_ms as int,
            ) {
                Some(v) => RespModel::BulkString(v),
                None => RespModel::NullBulkString,
            }),
            CommandModel::ConfigGet(k) => final(store)@ == old(store)@ && r.deep()
                == RespModel::Array(
                seq![
                    RespModel::BulkString(k),
                    (match config_lookup(*old(store), k) {
                        Some(v) => RespModel::BulkString(v),
                        None => RespModel::NullBulkString,
                    }),
                ],
            ),
        }),
{
    match command {
        Command::Ping => handle_ping(),
        Command::Echo(echo) => handle_echo(echo),
        Command::SetCmd(set_arguments) => handle_set(store, set_arguments, now_ms),
        Command::Get(key) => handle_get(store, key, now_ms),
        Command::ConfigGet(key) => handle_config_get(store, key),
    }
}

} // verus!
