use vstd::prelude::*;
use vstd::string::*;
use crate::model::{RespType, RespValue, resp_view, elems_view, lemma_elems_view};
use crate::serializer::{serialize_one_resp, serialize_value};
use crate::text::str_equals;

verus! {

/// A command that the server understands.
pub enum Command<'a> {
    /// Answer with the given text.
    PING(&'a str),
    /// Read the value stored under a key.
    GET(&'a str),
    /// Store a value under a key.
    SET((&'a str, &'a RespType<'a>)),
}

/// The model of a [`Command`].
pub enum CommandValue {
    PingReply(Seq<char>),
    Read(Seq<char>),
    Store(Seq<char>, RespValue),
}

impl<'a> View for Command<'a> {
    type V = CommandValue;

    open spec fn view(&self) -> CommandValue {
        match *self {
            Command::PING(m) => CommandValue::PingReply(m@),
            Command::GET(k) => CommandValue::Read(k@),
            Command::SET((k, v)) => CommandValue::Store(k@, v@),
        }
    }
}

/// The command that a RESP value asks for: a non-empty array of bulk strings
/// whose first element names the command (`PING` with at most one message,
/// `GET` with a key, `SET` with a key and any value).
pub open spec fn resp_to_command_spec(command: RespValue) -> Result<CommandValue, Seq<char>> {
    match command {
        RespValue::Array(elements) => if elements.len() == 0 {
            Err("commands require an array length of one or more."@)
        } else {
            let parameters = elements.drop_first();
            match elements[0] {
                RespValue::BulkString(Some(name)) => if name == "PING"@ {
                    if parameters.len() == 0 {
                        Ok(CommandValue::PingReply("PONG"@))
                    } else if parameters.len() == 1 {
                        match parameters[0] {
                            RespValue::BulkString(Some(message)) => Ok(CommandValue::PingReply(message)),
                            _ => Err("invalid resp type in parameter for 'ping'"@),
                        }
                    } else {
                        Err("wrong number of arguments for 'ping' command"@)
                    }
                } else if name == "GET"@ {
                    if parameters.len() == 1 {
                        match parameters[0] {
                            RespValue::BulkString(Some(key)) => Ok(CommandValue::Read(key)),
                            _ => Err("invalid resp type for get"@),
                        }
                    } else {
                        Err("wrong number of arguments for 'get' command"@)
                    }
                } else if name == "SET"@ {
                    if parameters.len() == 2 {
                        match parameters[0] {
                            RespValue::BulkString(Some(key)) => Ok(
                                CommandValue::Store(key, parameters[1]),
                            ),
                            _ => Err("invalid key resp type for set"@),
                        }
                    } else {
                        Err("wrong number of arguments for 'set' command"@)
                    }
                } else {
                    Err("unsupported command"@)
                },
                _ => Err("unsupported command"@),
            }
        },
        _ => Err("Invalid command. Command must be an array."@),
    }
}

/// The text of a bulk string that holds one.
fn bulk_text<'a>(t: &'a RespType<'a>) -> (r: Option<&'a str>)
    ensures
        match t@ {
            RespValue::BulkString(Some(s)) => r matches Some(x) && x@ == s,
            _ => r is None,
        },
{
    match t {
        RespType::BulkString(Some(s)) => Some(*s),
        _ => None,
    }
}

/// Reads the command that a RESP value asks for.
pub fn resp_to_command<'a>(command: &'a RespType<'a>) -> (r: Result<Command<'a>, &'static str>)
    ensures
        match resp_to_command_spec(command@) {
            Ok(c) => r matches Ok(x) && x@ == c,
            Err(m) => r matches Err(e) && e@ == m,
        },
{
    match command {
        RespType::Array(elements) => {
            if elements.len() == 0 {
                Err("commands require an array length of one or more.")
            } else {
                proof {
                    lemma_elems_view(elements@);
                }
                let n = elements.len() - 1;
                let ghost parameters = elems_view(elements@).drop_first();
                match bulk_text(&elements[0]) {
                    Some(name) => {
                        if str_equals(name, "PING") {
                            if n == 0 {
                                Ok(Command::PING("PONG"))
                            } else if n == 1 {
                                match bulk_text(&elements[1]) {
                                    Some(ping_message) => Ok(Command::PING(ping_message)),
                                    None => Err("invalid resp type in parameter for 'ping'"),
                                }
                            } else {
                                Err("wrong number of arguments for 'ping' command")
                            }
                        } else if str_equals(name, "GET") {
                            if n == 1 {
                                match bulk_text(&elements[1]) {
                                    Some(key) => Ok(Command::GET(key)),
                                    None => Err("invalid resp type for get"),
                                }
                            } else {
                                Err("wrong number of arguments for 'get' command")
                            }
                        } else if str_equals(name, "SET") {
                            if n == 2 {
                                let key = match bulk_text(&elements[1]) {
                                    Some(key) => key,
                                    None => {
                                        return Err("invalid key resp type for set");
                                    },
                                };
                                let value: &'a RespType<'a> = &elements[2];
                                Ok(Command::SET((key, value)))
                            } else {
                                Err("wrong number of arguments for 'set' command")
                            }
                        } else {
                            Err("unsupported command")
                        }
                    },
                    None => Err("unsupported command"),
                }
            }
        },
        _ => Err("Invalid command. Command must be an array."),
    }
}

/// What the server does for a command: answer at once with the given wire
/// text, or read or store a value in its database.
pub enum CommandAction<'a> {
    /// Send this wire text back.
    Reply(String),
    /// Answer with the value stored under this key.
    Read(&'a str),
    /// Store this value under this key, and answer as the database does.
    Store(&'a str, &'a RespType<'a>),
}

/// What the server does for a command or for the message of a refused one:
/// `PING` is answered with its text as a bulk string, a refused command with an
/// `ERR` error carrying the message, and `GET` and `SET` go to the database.
pub fn plan_command<'a>(command: Result<Command<'a>, &'a str>) -> (a: CommandAction<'a>)
    ensures
        match command {
            Ok(Command::PING(arg)) => a matches CommandAction::Reply(s) && s@ == serialize_value(
                RespValue::BulkString(Some(arg@)),
            ),
            Ok(Command::GET(key)) => a matches CommandAction::Read(k) && k == key,
            Ok(Command::SET((key, value))) => a matches CommandAction::Store(k, v) && k == key && v
                == value,
            Err(e) => a matches CommandAction::Reply(s) && s@ == serialize_value(
                RespValue::RespError("ERR"@, e@),
            ),
        },
{
    match command {
        Ok(Command::PING(arg)) => {
            let reply = RespType::BulkString(Some(arg));
            match serialize_one_resp(&reply) {
                Ok(s) => CommandAction::Reply(s),
                Err(_) => CommandAction::Reply(String::new()),
            }
        },
        Ok(Command::GET(arg)) => CommandAction::Read(arg),
        Ok(Command::SET((key, value))) => CommandAction::Store(key, value),
        Err(e) => {
            let reply = RespType::RespError(("ERR", e));
            match serialize_one_resp(&reply) {
                Ok(s) => CommandAction::Reply(s),
                Err(_) => CommandAction::Reply(String::new()),
            }
        },
    }
}

/// The model of a command line split into words: an array of bulk strings.
pub open spec fn cli_words_value<'a>(words: Seq<&'a str>) -> RespValue {
    RespValue::Array(Seq::new(words.len(), |i: int| RespValue::BulkString(Some(words[i]@))))
}

/// The command that a command line split into words stands for: an array of
/// bulk strings, one per word.
pub fn cli_tokens_to_resp<'a>(cli_tokens: Vec<&'a str>) -> (r: RespType<'a>)
    ensures
        r@ == cli_words_value(cli_tokens@),
{
    let mut acc: Vec<Box<RespType<'a>>> = Vec::new();
    let mut i: usize = 0;
    while i < cli_tokens.len()
        invariant
            i <= cli_tokens@.len(),
            elems_view(acc@) == Seq::new(
                i as nat,
                |j: int| RespValue::BulkString(Some(cli_tokens@[j]@)),
            ),
        decreases cli_tokens@.len() - i,
    {
        let ghost before = acc@;
        acc.push(Box::new(RespType::BulkString(Some(cli_tokens[i]))));
        proof {
            assert(acc@.drop_last() =~= before);
            assert(elems_view(acc@) == elems_view(before).push(resp_view(*acc@.last())));
            assert(elems_view(acc@) =~= Seq::new(
                (i + 1) as nat,
                |j: int| RespValue::BulkString(Some(cli_tokens@[j]@)),
            ));
        }
        i += 1;
    }
    RespType::Array(acc)
}

} // verus!
