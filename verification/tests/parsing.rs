use resp_parser::{checked_parse_resp, parse_resp, serialize_resp, RespType};

#[test]
fn empty_input_reads_no_values() {
    assert_eq!(parse_resp("").unwrap(), Vec::<RespType>::new());
}

#[test]
fn text_after_the_last_terminator_is_dropped() {
    assert_eq!(parse_resp("+OK\r\n+NO").unwrap(), vec![RespType::SimpleString("OK")]);
}

#[test]
fn several_top_level_values() {
    assert_eq!(
        parse_resp(":1\r\n+two\r\n").unwrap(),
        vec![RespType::Integer(1), RespType::SimpleString("two")]
    );
}

#[test]
fn integers_read_like_str_parse() {
    assert_eq!(parse_resp(":+5\r\n").unwrap(), vec![RespType::Integer(5)]);
    assert_eq!(parse_resp(":007\r\n").unwrap(), vec![RespType::Integer(7)]);
    assert_eq!(parse_resp(":-2147483648\r\n").unwrap(), vec![RespType::Integer(i32::MIN)]);
    assert_eq!(parse_resp(":2147483647\r\n").unwrap(), vec![RespType::Integer(i32::MAX)]);
    assert_eq!(parse_resp(":2147483648\r\n"), Err("failed to parse an integer value"));
    assert_eq!(parse_resp(":-\r\n"), Err("failed to parse an integer value"));
    assert_eq!(parse_resp(":abc\r\n"), Err("failed to parse an integer value"));
    assert_eq!(parse_resp(":1 \r\n"), Err("failed to parse an integer value"));
}

#[test]
fn error_splits_at_the_first_space() {
    assert_eq!(
        parse_resp("-ERR a b\r\n").unwrap(),
        vec![RespType::RespError(("ERR", "a b"))]
    );
    assert_eq!(parse_resp("- x\r\n").unwrap(), vec![RespType::RespError(("", "x"))]);
}

#[test]
fn bulk_strings() {
    assert_eq!(parse_resp("$-1\r\n").unwrap(), vec![RespType::BulkString(None)]);
    assert_eq!(parse_resp("$0\r\n\r\n").unwrap(), vec![RespType::BulkString(Some(""))]);
    assert_eq!(parse_resp("$2\r\né\r\n").unwrap(), vec![RespType::BulkString(Some("é"))]);
    assert_eq!(parse_resp("$+3\r\nabc\r\n").unwrap(), vec![RespType::BulkString(Some("abc"))]);
}

#[test]
fn bulk_string_faults() {
    assert_eq!(parse_resp("$-2\r\n"), Err("Invalid bulk string length"));
    assert_eq!(parse_resp("$3\r\n"), Err("Bulk string missing."));
    assert_eq!(parse_resp("$3\r\nab\r\n"), Err("Bulk string has incorrect length"));
    assert_eq!(parse_resp("$1\r\né\r\n"), Err("Bulk string has incorrect length"));
    assert_eq!(parse_resp("$x\r\n"), Err("Failed to parse string length of bulk string"));
}

#[test]
fn arrays() {
    assert_eq!(parse_resp("*0\r\n").unwrap(), vec![RespType::Array(vec![])]);
    assert_eq!(
        parse_resp("*+1\r\n:1\r\n").unwrap(),
        vec![RespType::Array(vec![Box::new(RespType::Integer(1))])]
    );
    assert_eq!(parse_resp("*2\r\n+OK\r\n"), Err("No token strings in vector slice"));
    assert_eq!(parse_resp("*-1\r\n"), Err("Failed to parse array length."));
    assert_eq!(parse_resp("*x\r\n"), Err("Failed to parse array length."));
}

#[test]
fn unknown_type_marker() {
    assert_eq!(
        parse_resp("?x\r\n"),
        Err("Invalid token, first character must be *,+,-,: or $")
    );
}

#[test]
fn first_fault_wins() {
    assert_eq!(parse_resp("+OK\r\n:x\r\n?y\r\n"), Err("failed to parse an integer value"));
}

#[test]
fn malformed_input_is_not_read() {
    assert!(checked_parse_resp("+\r\n").is_none());
    assert!(checked_parse_resp("\r\n").is_none());
    assert!(checked_parse_resp("-nospace\r\n").is_none());
    assert!(checked_parse_resp("é1\r\n").is_none());
    assert!(checked_parse_resp("*1\r\n+\r\n").is_none());
    assert_eq!(checked_parse_resp("+OK\r\n"), Some(Ok(vec![RespType::SimpleString("OK")])));
    assert_eq!(checked_parse_resp("?x\r\n").unwrap().is_err(), true);
}

#[test]
fn null_bulk_string_does_not_read_back() {
    let values = vec![RespType::BulkString(None)];
    let wire = serialize_resp(&values).unwrap();
    assert_eq!(wire, "$-1\r\n\r\n");
    assert!(checked_parse_resp(&wire).is_none());
}

#[test]
fn serialize_then_parse_gives_the_values_back() {
    let values = vec![
        RespType::Integer(-42),
        RespType::Array(vec![
            Box::new(RespType::BulkString(Some("héllo wörld"))),
            Box::new(RespType::RespError(("WRONGTYPE", "bad\rvalue"))),
            Box::new(RespType::Array(vec![])),
            Box::new(RespType::SimpleString("x\r")),
        ]),
        RespType::BulkString(Some("")),
    ];
    let wire = serialize_resp(&values).unwrap();
    assert_eq!(parse_resp(&wire).unwrap(), values);
}

#[test]
fn canonical_messages_are_written_back_unchanged() {
    let messages = [
        "",
        ":-7\r\n+OK\r\n",
        "*2\r\n$3\r\nabc\r\n*0\r\n",
        "-ERR unknown command\r\n$0\r\n\r\n",
    ];
    for message in messages.iter() {
        let values = parse_resp(message).unwrap();
        assert_eq!(serialize_resp(&values).unwrap(), *message);
    }
}

#[test]
fn non_canonical_numbers_are_written_in_shortest_form() {
    let values = parse_resp(":+05\r\n*+1\r\n$01\r\nx\r\n").unwrap();
    assert_eq!(serialize_resp(&values).unwrap(), ":5\r\n*1\r\n$1\r\nx\r\n");
}

#[test]
fn two_messages_read_one_after_the_other() {
    let a = ":1\r\n*1\r\n+x\r\n";
    let b = "$2\r\nhi\r\n-E m\r\n";
    let mut both = parse_resp(a).unwrap();
    both.extend(parse_resp(b).unwrap());
    let joined = format!("{}{}", a, b);
    assert_eq!(parse_resp(&joined).unwrap(), both);
}

#[test]
fn unterminated_last_line_changes_nothing() {
    assert_eq!(parse_resp("+OK\r\n:bad"), parse_resp("+OK\r\n"));
    assert_eq!(parse_resp("?x\r\n+"), parse_resp("?x\r\n"));
    assert_eq!(checked_parse_resp("+\r\nabc").is_none(), checked_parse_resp("+\r\n").is_none());
    assert_eq!(parse_resp("partial"), Ok(vec![]));
}
