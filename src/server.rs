use vstd::prelude::*;

use crate::command::{argument_text, command_of, Command, CommandModel};
use crate::parser::{parse_at, Parsed};
use crate::resp::{encoding, ProtocolError, Resp, RespValue};
use crate::store::Store;
use vstd::utf8::{decode_utf8_encode_utf8, encode_utf8, valid_utf8};

verus! {

/// The reply `+text\r\n`.
pub open spec fn text_reply(text: Seq<char>) -> Seq<u8> {
    encoding(Resp::Simple(encode_utf8(text)))
}

/// The reply `-text\r\n`.
pub open spec fn error_reply(text: Seq<char>) -> Seq<u8> {
    encoding(Resp::Error(encode_utf8(text)))
}

/// A text reply to an argument whose bytes are valid UTF-8 carries those
/// bytes unchanged: `+` then the bytes then CR LF.
pub proof fn lemma_reply_keeps_bytes(d: Seq<u8>)
    requires
        valid_utf8(d),
    ensures
        text_reply(argument_text(d)) == encoding(Resp::Simple(d)),
{
    decode_utf8_encode_utf8(d);
}

pub open spec fn invalid_command_text() -> Seq<char> {
    "ERR Invalid command"@
}

pub open spec fn key_not_found_text() -> Seq<char> {
    "ERR Key not found"@
}

pub open spec fn ok_text() -> Seq<char> {
    "OK"@
}

/// What a connection does next with the bytes it has gathered.
pub enum Action {
    /// The bytes start a value but do not hold all of it: read more.
    Wait,
    /// The bytes are not a value: end the connection with this error.
    Close(ProtocolError),
    /// Send these bytes, clear the buffer and read on.
    Reply(Vec<u8>),
    /// Carry out this command, send its reply, clear the buffer and read on.
    Run(Command),
}

fn simple_reply(text: &str) -> (r: Vec<u8>)
    ensures
        r@ == text_reply(text@),
{
    let payload = vstd::slice::slice_to_vec(text.as_bytes());
    RespValue::SimpleString(payload).encode()
}

fn error_reply_of(text: &str) -> (r: Vec<u8>)
    ensures
        r@ == error_reply(text@),
{
    let payload = vstd::slice::slice_to_vec(text.as_bytes());
    RespValue::Error(payload).encode()
}

/// Decides what to do with the bytes gathered on a connection so far.
pub fn next_action(buffer: &[u8]) -> (a: Action)
    ensures
        match parse_at(buffer@, 0) {
            Parsed::Incomplete => a is Wait,
            Parsed::Invalid(e) => a matches Action::Close(f) && f == e,
            Parsed::Complete(_, v) => match command_of(v) {
                None => a matches Action::Reply(r) && r@ == error_reply(invalid_command_text()),
                Some(c) => a matches Action::Run(cmd) && cmd@ == c,
            },
        },
{
    match RespValue::from_bytes(buffer) {
        Err(e) => Action::Close(e),
        Ok(None) => Action::Wait,
        Ok(Some((_, value))) => match Command::from_resp_value(&value) {
            Some(cmd) => Action::Run(cmd),
            None => Action::Reply(error_reply_of("ERR Invalid command")),
        },
    }
}

/// The reply to a command that does not touch the store; `None` for one that does.
pub fn respond(cmd: &Command) -> (r: Option<Vec<u8>>)
    ensures
        match cmd@ {
            CommandModel::Ping(m) => r matches Some(x) && x@ == text_reply(m),
            CommandModel::Echo(m) => r matches Some(x) && x@ == text_reply(m),
            _ => r is None,
        },
{
    match cmd {
        Command::Ping(m) => Some(simple_reply(m.as_str())),
        Command::Echo(m) => Some(simple_reply(m.as_str())),
        _ => None,
    }
}

/// Carries out a command against the store and gives its reply.
pub fn apply(cmd: &Command, store: &mut Store) -> (r: Vec<u8>)
    ensures
        match cmd@ {
            CommandModel::Ping(m) => r@ == text_reply(m) && final(store)@ == old(store)@,
            CommandModel::Echo(m) => r@ == text_reply(m) && final(store)@ == old(store)@,
            CommandModel::Get(k) => final(store)@ == old(store)@ && r@ == if old(
                store,
            )@.contains_key(k) {
                text_reply(old(store)@[k])
            } else {
                error_reply(key_not_found_text())
            },
            CommandModel::SetKey(k, v) => final(store)@ == old(store)@.insert(k, v) && r@
                == text_reply(ok_text()),
        },
{
    match cmd {
        Command::Ping(m) => simple_reply(m.as_str()),
        Command::Echo(m) => simple_reply(m.as_str()),
        Command::Get(k) => match store.get(k) {
            Some(v) => simple_reply(v.as_str()),
            None => error_reply_of("ERR Key not found"),
        },
        Command::SetKey(k, v) => {
            store.insert(k.clone(), v.clone());
            simple_reply("OK")
        },
    }
}

} // verus!
