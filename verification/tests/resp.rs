use resp_parser::{parse_resp, serialize_resp, RespType};

#[test]
fn lib_test_resp_string() {
    let test_token = RespType::Array(vec![
        Box::new(RespType::BulkString(Some(""))),
        Box::new(RespType::Integer(1234)),
        Box::new(RespType::SimpleString("OK")),
        Box::new(RespType::RespError(("wrong", "hello world"))),
        Box::new(RespType::Array(vec![
            Box::new(RespType::SimpleString("HOLA")),
            Box::new(RespType::SimpleString("OK")),
            Box::new(RespType::BulkString(Some("OK"))),
        ])),
    ]);
    let test_tokens = vec![test_token];
    let test_string = "*5\r\n$0\r\n\r\n:1234\r\n+OK\r\n-wrong hello world\r\n*3\r\n+HOLA\r\n+OK\r\n$2\r\nOK\r\n";
    assert_eq!(test_tokens, parse_resp(test_string).unwrap());
    assert_eq!(serialize_resp(&test_tokens).unwrap(), test_string);

    for (_index, token) in parse_resp(test_string).unwrap().iter().enumerate() {
        println!("{}", token.to_string());
    }
}
