use resp_parser::{
    cli_tokens_to_resp, execute_command, parse_resp, plan_command, resp_to_command,
    serialize_resp, split_words, Command, CommandAction, RespType,
};

fn bulk(s: &str) -> Box<RespType<'_>> {
    Box::new(RespType::BulkString(Some(s)))
}

#[test]
fn ping_is_answered_with_pong() {
    let command = RespType::Array(vec![bulk("PING"), bulk("ignored")]);
    assert_eq!(execute_command(command), Ok(RespType::SimpleString("PONG")));
}

#[test]
fn refused_commands() {
    assert_eq!(
        execute_command(RespType::Array(vec![bulk("ping")])),
        Err("command not recognized.")
    );
    assert_eq!(
        execute_command(RespType::Array(vec![Box::new(RespType::BulkString(None))])),
        Err("first part of command cannot be a null")
    );
    assert_eq!(
        execute_command(RespType::Array(vec![Box::new(RespType::Integer(1))])),
        Err("All commands and command parameters must be bulk strings")
    );
    assert_eq!(
        execute_command(RespType::Array(vec![])),
        Err("commands require an array length of one or more.")
    );
    assert_eq!(
        execute_command(RespType::SimpleString("PING")),
        Err("Invalid command. Command must be an array.")
    );
}

#[test]
fn commands_are_read_from_arrays_of_bulk_strings() {
    let ping = RespType::Array(vec![bulk("PING")]);
    assert!(matches!(resp_to_command(&ping), Ok(Command::PING("PONG"))));
    let ping_msg = RespType::Array(vec![bulk("PING"), bulk("hi")]);
    assert!(matches!(resp_to_command(&ping_msg), Ok(Command::PING("hi"))));
    let get = RespType::Array(vec![bulk("GET"), bulk("k")]);
    assert!(matches!(resp_to_command(&get), Ok(Command::GET("k"))));
    let set = RespType::Array(vec![bulk("SET"), bulk("k"), Box::new(RespType::Integer(3))]);
    match resp_to_command(&set) {
        Ok(Command::SET((key, value))) => {
            assert_eq!(key, "k");
            assert_eq!(*value, RespType::Integer(3));
        }
        _ => panic!("SET was not read"),
    }
}

#[test]
fn command_faults() {
    let cases: Vec<(RespType, &str)> = vec![
        (RespType::Array(vec![]), "commands require an array length of one or more."),
        (RespType::Integer(1), "Invalid command. Command must be an array."),
        (
            RespType::Array(vec![bulk("PING"), Box::new(RespType::Integer(1))]),
            "invalid resp type in parameter for 'ping'",
        ),
        (
            RespType::Array(vec![bulk("PING"), bulk("a"), bulk("b")]),
            "wrong number of arguments for 'ping' command",
        ),
        (
            RespType::Array(vec![bulk("GET"), Box::new(RespType::BulkString(None))]),
            "invalid resp type for get",
        ),
        (RespType::Array(vec![bulk("GET")]), "wrong number of arguments for 'get' command"),
        (
            RespType::Array(vec![bulk("SET"), Box::new(RespType::Integer(1)), bulk("v")]),
            "invalid key resp type for set",
        ),
        (RespType::Array(vec![bulk("SET"), bulk("k")]), "wrong number of arguments for 'set' command"),
        (RespType::Array(vec![bulk("DEL"), bulk("k")]), "unsupported command"),
        (RespType::Array(vec![Box::new(RespType::SimpleString("PING"))]), "unsupported command"),
    ];
    for (command, message) in cases.iter() {
        match resp_to_command(command) {
            Err(e) => assert_eq!(e, *message),
            Ok(_) => panic!("command was accepted"),
        }
    }
}

#[test]
fn what_the_server_does_for_a_command() {
    match plan_command(Ok(Command::PING("hi"))) {
        CommandAction::Reply(s) => assert_eq!(s, "$2\r\nhi\r\n"),
        _ => panic!("PING is answered at once"),
    }
    match plan_command(Err("boom")) {
        CommandAction::Reply(s) => assert_eq!(s, "-ERR boom\r\n"),
        _ => panic!("a refused command is answered at once"),
    }
    assert!(matches!(plan_command(Ok(Command::GET("k"))), CommandAction::Read("k")));
    let value = RespType::Integer(5);
    match plan_command(Ok(Command::SET(("k", &value)))) {
        CommandAction::Store(key, v) => {
            assert_eq!(key, "k");
            assert_eq!(*v, RespType::Integer(5));
        }
        _ => panic!("SET goes to the database"),
    }
}

#[test]
fn a_command_line_goes_over_the_wire_and_back() {
    let command = cli_tokens_to_resp(vec!["SET", "clé", "v"]);
    assert_eq!(
        command,
        RespType::Array(vec![bulk("SET"), bulk("clé"), bulk("v")])
    );
    let values = vec![command];
    let wire = serialize_resp(&values).unwrap();
    assert_eq!(wire, "*3\r\n$3\r\nSET\r\n$4\r\nclé\r\n$1\r\nv\r\n");
    assert_eq!(parse_resp(&wire).unwrap(), values);
    match resp_to_command(&values[0]) {
        Ok(Command::SET((key, value))) => {
            assert_eq!(key, "clé");
            assert_eq!(*value, RespType::BulkString(Some("v")));
        }
        _ => panic!("SET was not read"),
    }
}

#[test]
fn a_command_line_is_split_at_every_space() {
    assert_eq!(split_words("SET k v"), vec!["SET", "k", "v"]);
    assert_eq!(split_words("GET  k"), vec!["GET", "", "k"]);
    assert_eq!(split_words(""), vec![""]);
    assert_eq!(split_words(" x "), vec!["", "x", ""]);
}

#[test]
fn parameters_do_not_change_the_answer() {
    let with = RespType::Array(vec![bulk("PING"), bulk("a"), Box::new(RespType::Integer(1))]);
    let without = RespType::Array(vec![bulk("PING")]);
    assert_eq!(execute_command(with), execute_command(without));
}
