//! RESP (REdis Serialization Protocol) messages: reading them into values,
//! writing values back, printing them, and the commands a small Redis-like
//! server answers.
//!
//! - `model`: the value type and its mathematical model;
//! - `numbers`: decimal notation and reading of integers;
//! - `text`: splitting text into lines and words;
//! - `parser`: reading a message;
//! - `serializer`: writing and printing values;
//! - `redis_commands`, `commands`: what the server answers;
//! - `laws`: properties that span these functions.
pub mod model;
pub mod numbers;
pub mod text;
pub mod parser;
pub mod serializer;
pub mod redis_commands;
pub mod commands;
pub mod laws;

pub use model::RespType;
pub use parser::{parse_resp, checked_parse_resp, ParseFault};
pub use serializer::{serialize_one_resp, serialize_resp};
pub use redis_commands::execute_command;
pub use commands::{Command, CommandAction, resp_to_command, plan_command, cli_tokens_to_resp};
pub use text::split_words;
