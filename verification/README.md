# resp_parser

A verified reader and writer for RESP, the REdis Serialization Protocol, with
the command layer of a small Redis-like server. Every function in `src/` is
proved by Verus against a contract over a mathematical model of the values.

- `src/model.rs`: the value type `RespType` and its model `RespValue`.
- `src/numbers.rs`, `src/text.rs`: decimal numbers, line and word splitting.
- `src/parser.rs`: reading a message (`parse_resp`, `checked_parse_resp`).
- `src/serializer.rs`: writing values (`serialize_resp`) and printing them.
- `src/redis_commands.rs`, `src/commands.rs`: what the server answers.
- `src/laws.rs`: properties across functions, among them that writing
  readable values and reading them back gives the same values, and that
  reading a canonical message and writing it back gives the same text.
- `tests/`: tests on concrete values.
- `app/`: the TCP server and the interactive client (I/O, not verified).
