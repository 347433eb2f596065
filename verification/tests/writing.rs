use resp_parser::{serialize_one_resp, serialize_resp, RespType};

#[test]
fn wire_forms() {
    assert_eq!(serialize_one_resp(&RespType::SimpleString("OK")).unwrap(), "+OK\r\n");
    assert_eq!(serialize_one_resp(&RespType::Integer(-42)).unwrap(), ":-42\r\n");
    assert_eq!(serialize_one_resp(&RespType::Integer(i32::MIN)).unwrap(), ":-2147483648\r\n");
    assert_eq!(serialize_one_resp(&RespType::Integer(0)).unwrap(), ":0\r\n");
    assert_eq!(
        serialize_one_resp(&RespType::RespError(("ERR", "no such key"))).unwrap(),
        "-ERR no such key\r\n"
    );
    assert_eq!(serialize_one_resp(&RespType::BulkString(None)).unwrap(), "$-1\r\n\r\n");
    assert_eq!(serialize_one_resp(&RespType::BulkString(Some("é"))).unwrap(), "$2\r\né\r\n");
    assert_eq!(serialize_one_resp(&RespType::Array(vec![])).unwrap(), "*0\r\n");
}

#[test]
fn a_list_is_its_values_one_after_another() {
    let values = vec![RespType::Integer(1), RespType::SimpleString("a")];
    assert_eq!(serialize_resp(&values).unwrap(), ":1\r\n+a\r\n");
    assert_eq!(serialize_resp(&vec![]).unwrap(), "");
}

#[test]
fn printed_forms() {
    assert_eq!(RespType::SimpleString("OK").to_string(), "SimpleString(\"OK\")");
    assert_eq!(RespType::RespError(("ERR", "bad")).to_string(), "Error(ERR, bad)");
    assert_eq!(RespType::Integer(-7).to_string(), "Integer(-7)");
    assert_eq!(RespType::BulkString(Some("x")).to_string(), "BulkString(\"x\")");
    assert_eq!(RespType::BulkString(None).to_string(), "BulkString(None)");
    assert_eq!(RespType::Array(vec![]).to_string(), "Array[]");
    assert_eq!(
        RespType::Array(vec![
            Box::new(RespType::Integer(1)),
            Box::new(RespType::Array(vec![Box::new(RespType::SimpleString("a"))])),
        ])
        .to_string(),
        "Array[Integer(1), Array[SimpleString(\"a\")]]"
    );
}
