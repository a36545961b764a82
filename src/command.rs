use vstd::prelude::*;

use crate::resp::{lemma_views_index, Resp, RespValue};

verus! {

/// What `String::from_utf8_lossy` makes of a byte sequence.
pub uninterp spec fn lossy_text(b: Seq<u8>) -> Seq<char>;

/// Relies on std's `String::from_utf8_lossy`: the text depends on the bytes
/// alone, and valid UTF-8 comes back as the text it encodes.
#[verifier::external_body]
fn text_of(data: &Vec<u8>) -> (r: String)
    ensures
        r@ == lossy_text(data@),
        vstd::utf8::valid_utf8(data@) ==> r@ == vstd::utf8::decode_utf8(data@),
{
    String::from_utf8_lossy(data).into_owned()
}

/// A request that the server understands.
#[derive(Debug)]
pub enum Command {
    Ping(String),
    Echo(String),
    Get(String),
    SetKey(String, String),
}

/// Mathematical model of a command.
pub enum CommandModel {
    Ping(Seq<char>),
    Echo(Seq<char>),
    Get(Seq<char>),
    SetKey(Seq<char>, Seq<char>),
}

impl View for Command {
    type V = CommandModel;

    open spec fn view(&self) -> CommandModel {
        match self {
            Command::Ping(m) => CommandModel::Ping(m@),
            Command::Echo(m) => CommandModel::Echo(m@),
            Command::Get(k) => CommandModel::Get(k@),
            Command::SetKey(k, v) => CommandModel::SetKey(k@, v@),
        }
    }
}

pub open spec fn ascii_lower(c: u8) -> u8 {
    if 65 <= c <= 90 {
        (c + 32) as u8
    } else {
        c
    }
}

/// `s` spells `name` (given in lower case), ignoring ASCII case.
pub open spec fn names(s: Seq<u8>, name: Seq<u8>) -> bool {
    s.len() == name.len() && forall|i: int| 0 <= i < s.len() ==> ascii_lower(#[trigger] s[i]) == name[i]
}

/// The text that an argument's bytes stand for: the characters they encode when
/// they are valid UTF-8, and otherwise the lossy decoding.
pub open spec fn argument_text(d: Seq<u8>) -> Seq<char> {
    if vstd::utf8::valid_utf8(d) {
        vstd::utf8::decode_utf8(d)
    } else {
        lossy_text(d)
    }
}

/// An argument sent as the UTF-8 encoding of a text is read back as that text.
pub proof fn lemma_argument_of_text(t: Seq<char>)
    ensures
        argument_text(vstd::utf8::encode_utf8(t)) == t,
{
    vstd::utf8::encode_utf8_valid_utf8(t);
    vstd::utf8::encode_utf8_decode_utf8(t);
}

/// The text of argument `k` of a request, if it is there and is a bulk string.
pub open spec fn argument(items: Seq<Resp>, k: int) -> Option<Seq<char>> {
    if 0 <= k < items.len() {
        match items[k] {
            Resp::Bulk(d) => Some(argument_text(d)),
            _ => None,
        }
    } else {
        None
    }
}

pub open spec fn pong() -> Seq<char> {
    seq!['P', 'O', 'N', 'G']
}

/// The command that a request value denotes, if any. PING takes at most one
/// argument, ECHO and GET exactly one, SET exactly two; any other count is no
/// command.
pub open spec fn command_of(v: Resp) -> Option<CommandModel> {
    match v {
        Resp::Array(items) => {
            if items.len() >= 1 && items[0] is Bulk {
                let name = items[0]->Bulk_0;
                if names(name, seq![112u8, 105u8, 110u8, 103u8]) {
                    if items.len() == 1 {
                        Some(CommandModel::Ping(pong()))
                    } else if items.len() == 2 {
                        match argument(items, 1) {
                            Some(m) => Some(CommandModel::Ping(m)),
                            None => None,
                        }
                    } else {
                        None
                    }
                } else if names(name, seq![101u8, 99u8, 104u8, 111u8]) && items.len() == 2 {
                    match argument(items, 1) {
                        Some(m) => Some(CommandModel::Echo(m)),
                        None => None,
                    }
                } else if names(name, seq![103u8, 101u8, 116u8]) && items.len() == 2 {
                    match argument(items, 1) {
                        Some(k) => Some(CommandModel::Get(k)),
                        None => None,
                    }
                } else if names(name, seq![115u8, 101u8, 116u8]) && items.len() == 3 {
                    match (argument(items, 1), argument(items, 2)) {
                        (Some(k), Some(x)) => Some(CommandModel::SetKey(k, x)),
                        _ => None,
                    }
                } else {
                    None
                }
            } else {
                None
            }
        },
        _ => None,
    }
}

/// `SET` with a key alone is no command; `SET` with a key and a value sets
/// that key; `GET` with no key, or with two, is no command.
pub proof fn lemma_arity(key: Seq<u8>, value: Seq<u8>)
    ensures
        command_of(Resp::Array(seq![Resp::Bulk(seq![83u8, 69u8, 84u8]), Resp::Bulk(key)])) is None,
        command_of(
            Resp::Array(
                seq![Resp::Bulk(seq![83u8, 69u8, 84u8]), Resp::Bulk(key), Resp::Bulk(value)],
            ),
        ) == Some(CommandModel::SetKey(argument_text(key), argument_text(value))),
        command_of(Resp::Array(seq![Resp::Bulk(seq![71u8, 69u8, 84u8])])) is None,
        command_of(
            Resp::Array(
                seq![Resp::Bulk(seq![71u8, 69u8, 84u8]), Resp::Bulk(key), Resp::Bulk(value)],
            ),
        ) is None,
{
    let set_upper = seq![83u8, 69u8, 84u8];
    let get_upper = seq![71u8, 69u8, 84u8];
    assert(names(set_upper, seq![115u8, 101u8, 116u8]));
    assert(!names(set_upper, seq![112u8, 105u8, 110u8, 103u8]));
    assert(!names(set_upper, seq![101u8, 99u8, 104u8, 111u8]));
    assert(ascii_lower(set_upper[0]) != 103u8);
    assert(!names(set_upper, seq![103u8, 101u8, 116u8]));
    assert(names(get_upper, seq![103u8, 101u8, 116u8]));
    assert(!names(get_upper, seq![112u8, 105u8, 110u8, 103u8]));
    assert(!names(get_upper, seq![101u8, 99u8, 104u8, 111u8]));
}

fn name_is(s: &Vec<u8>, name: &[u8]) -> (r: bool)
    ensures
        r == names(s@, name@),
{
    if s.len() != name.len() {
        return false;
    }
    let mut i: usize = 0;
    while i < s.len()
        invariant
            s@.len() == name@.len(),
            0 <= i <= s.len(),
            forall|j: int| 0 <= j < i ==> ascii_lower(#[trigger] s@[j]) == name@[j],
        decreases s.len() - i,
    {
        let c = s[i];
        let lower: u8 = if 65 <= c && c <= 90 {
            c + 32
        } else {
            c
        };
        if lower != name[i] {
            return false;
        }
        i = i + 1;
    }
    true
}

impl Command {
    /// Reads a command out of a request: an array whose first element, a bulk
    /// string, names the command in any ASCII case, followed by its arguments.
    pub fn from_resp_value(resp_value: &RespValue) -> (r: Option<Command>)
        ensures
            match r {
                Some(c) => command_of(resp_value@) == Some(c@),
                None => command_of(resp_value@) is None,
            },
    {
        if let RespValue::Array(elements) = resp_value {
            proof {
                lemma_views_index(elements@);
            }
            if elements.len() >= 1 {
                if let RespValue::BulkString(name) = &elements[0] {
                    let ping_name = [112u8, 105u8, 110u8, 103u8];
                    let echo_name = [101u8, 99u8, 104u8, 111u8];
                    let get_name = [103u8, 101u8, 116u8];
                    let set_name = [115u8, 101u8, 116u8];
                    assert(ping_name@ =~= seq![112u8, 105u8, 110u8, 103u8]);
                    assert(echo_name@ =~= seq![101u8, 99u8, 104u8, 111u8]);
                    assert(get_name@ =~= seq![103u8, 101u8, 116u8]);
                    assert(set_name@ =~= seq![115u8, 101u8, 116u8]);
                    if name_is(name, &ping_name) {
                        if elements.len() == 1 {
                            let message = "PONG".to_owned();
                            proof {
                                reveal_strlit("PONG");
                                assert(message@ =~= pong());
                            }
                            return Some(Command::Ping(message));
                        }
                        if elements.len() != 2 {
                            return None;
                        }
                        return match Self::extract_argument(elements, 1) {
                            Some(m) => Some(Command::Ping(m)),
                            None => None,
                        };
                    } else if name_is(name, &echo_name) {
                        if elements.len() != 2 {
                            return None;
                        }
                        return match Self::extract_argument(elements, 1) {
                            Some(m) => Some(Command::Echo(m)),
                            None => None,
                        };
                    } else if name_is(name, &get_name) {
                        if elements.len() != 2 {
                            assert(ascii_lower(name@[0]) == 103u8);
                            return None;
                        }
                        return match Self::extract_argument(elements, 1) {
                            Some(k) => Some(Command::Get(k)),
                            None => None,
                        };
                    } else if name_is(name, &set_name) {
                        if elements.len() != 3 {
                            return None;
                        }
                        let key = match Self::extract_argument(elements, 1) {
                            Some(k) => k,
                            None => return None,
                        };
                        let value = match Self::extract_argument(elements, 2) {
                            Some(x) => x,
                            None => return None,
                        };
                        return Some(Command::SetKey(key, value));
                    }
                }
            }
        }
        None
    }

    /// The text of argument `index`, when it is there and is a bulk string.
    fn extract_argument(elements: &Vec<RespValue>, index: usize) -> (r: Option<String>)
        ensures
            match r {
                Some(t) => argument(crate::resp::views(elements@), index as int) == Some(t@),
                None => argument(crate::resp::views(elements@), index as int) is None,
            },
    {
        proof {
            lemma_views_index(elements@);
        }
        if index < elements.len() {
            match &elements[index] {
                RespValue::BulkString(data) => Some(text_of(data)),
                _ => None,
            }
        } else {
            None
        }
    }
}

} // verus!
