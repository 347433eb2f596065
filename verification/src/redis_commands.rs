use vstd::prelude::*;
use crate::model::{RespType, RespValue, lemma_elems_view};
use crate::text::str_equals;

verus! {

/// What a command's first element asks for: `PING` is answered with `PONG`.
pub open spec fn handle_command_spec(command_type: RespValue) -> Result<RespValue, Seq<char>> {
    match command_type {
        RespValue::BulkString(Some(s)) => if s == "PING"@ {
            Ok(RespValue::SimpleString("PONG"@))
        } else {
            Err("command not recognized."@)
        },
        RespValue::BulkString(None) => Err("first part of command cannot be a null"@),
        _ => Err("All commands and command parameters must be bulk strings"@),
    }
}

/// What a command asks for: a command is a non-empty array whose first element
/// names it.
pub open spec fn execute_command_spec(command: RespValue) -> Result<RespValue, Seq<char>> {
    match command {
        RespValue::Array(elements) => if elements.len() == 0 {
            Err("commands require an array length of one or more."@)
        } else {
            handle_command_spec(elements[0])
        },
        _ => Err("Invalid command. Command must be an array."@),
    }
}

/// `r` is what `spec` describes.
pub open spec fn reply_matches<'a>(
    spec: Result<RespValue, Seq<char>>,
    r: Result<RespType<'a>, &'static str>,
) -> bool {
    match spec {
        Ok(v) => r matches Ok(t) && t@ == v,
        Err(m) => r matches Err(e) && e@ == m,
    }
}

/// Answers a command given as a RESP value.
pub fn execute_command(command: RespType) -> (r: Result<RespType, &'static str>)
    ensures
        reply_matches(execute_command_spec(command@), r),
{
    match command {
        RespType::Array(elements) => {
            let mut elements = elements;
            if elements.len() == 0 {
                Err("commands require an array length of one or more.")
            } else {
                proof {
                    lemma_elems_view(elements@);
                }
                let command_type = *(elements.remove(0));
                let parameters = elements;
                handle_command(command_type, parameters)
            }
        },
        _ => Err("Invalid command. Command must be an array."),
    }
}

/// Answers a command from its first element; the parameters are not used.
fn handle_command<'a>(command_type: RespType, paramters: Vec<Box<RespType<'a>>>) -> (r: Result<
    RespType<'a>,
    &'static str,
>)
    ensures
        reply_matches(handle_command_spec(command_type@), r),
{
    match command_type {
        RespType::BulkString(optional_command_string) => {
            match optional_command_string {
                Some(command_string) => {
                    if str_equals(command_string, "PING") {
                        Ok(RespType::SimpleString("PONG"))
                    } else {
                        Err("command not recognized.")
                    }
                },
                None => Err("first part of command cannot be a null"),
            }
        },
        _ => Err("All commands and command parameters must be bulk strings"),
    }
}

} // verus!
