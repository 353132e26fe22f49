use redis_lite::resp::{
    decode, decode_array_string, decode_one, encode, encode_cmd, encode_one, find_crlf,
    resp_nil, resp_ok, RespError, RespValue,
};

#[test]
fn find_crlf_finds_the_first_terminator() {
    assert_eq!(find_crlf(b"ab\r\ncd\r\n"), Some(2));
    assert_eq!(find_crlf(b"\r\n"), Some(0));
    assert_eq!(find_crlf(b"ab\rcd\n"), None);
    assert_eq!(find_crlf(b""), None);
}

#[test]
fn encode_one_writes_each_type() {
    assert_eq!(encode_one(RespValue::SimpleString("OK".into())).unwrap(), b"+OK\r\n".to_vec());
    assert_eq!(encode_one(RespValue::BulkString("héllo".into())).unwrap(), "$6\r\nhéllo\r\n".as_bytes().to_vec());
    assert_eq!(encode_one(RespValue::Integer(-42)).unwrap(), b":-42\r\n".to_vec());
    assert_eq!(encode_one(RespValue::Integer(i64::MIN)).unwrap(), b":-9223372036854775808\r\n".to_vec());
    assert_eq!(encode_one(RespValue::Error("ERR x".into())).unwrap(), b"-ERR x\r\n".to_vec());
    assert_eq!(encode_one(RespValue::Array(vec![])).unwrap(), b"$-1\r\n".to_vec());
}

#[test]
fn encode_of_array_concatenates_items() {
    let v = RespValue::Array(vec![RespValue::Integer(1), RespValue::SimpleString("a".into())]);
    assert_eq!(encode(v).unwrap(), b":1\r\n+a\r\n".to_vec());
    assert_eq!(encode(RespValue::Integer(7)).unwrap(), b":7\r\n".to_vec());
}

#[test]
fn encode_cmd_writes_an_array_of_bulk_strings() {
    let bytes = encode_cmd(vec!["SET".to_string(), "k".to_string(), "v".to_string()]).unwrap();
    assert_eq!(bytes, b"*3\r\n$3\r\nSET\r\n$1\r\nk\r\n$1\r\nv\r\n".to_vec());
    assert_eq!(encode_cmd(vec![]).unwrap(), b"*0\r\n".to_vec());
}

#[test]
fn ok_and_nil_replies() {
    assert_eq!(resp_ok(), b"+OK\r\n".to_vec());
    assert_eq!(resp_nil(), b"$-1\r\n".to_vec());
}

#[test]
fn encode_cmd_reads_back() {
    let cmd = vec!["SET".to_string(), "clé".to_string(), "".to_string()];
    let bytes = encode_cmd(cmd.clone()).unwrap();
    assert_eq!(decode_array_string(&bytes).unwrap(), vec![cmd]);
}

#[test]
fn values_read_back() {
    for v in [
        RespValue::SimpleString("PONG".into()),
        RespValue::BulkString("a\r\nb".into()),
        RespValue::Integer(-5),
        RespValue::Integer(i64::MAX),
        RespValue::Error("ERR e".into()),
    ] {
        let bytes = encode_one(clone_value(&v)).unwrap();
        let (back, n) = decode_one(&bytes).unwrap();
        assert_eq!(back, v);
        assert_eq!(n, bytes.len());
    }
}

fn clone_value(v: &RespValue) -> RespValue {
    match v {
        RespValue::SimpleString(s) => RespValue::SimpleString(s.clone()),
        RespValue::BulkString(s) => RespValue::BulkString(s.clone()),
        RespValue::Integer(n) => RespValue::Integer(*n),
        RespValue::Error(s) => RespValue::Error(s.clone()),
        RespValue::Array(a) => RespValue::Array(a.iter().map(clone_value).collect()),
    }
}

#[test]
fn decode_reads_values_one_after_another() {
    let vals = decode(b"+a\r\n:2\r\n").unwrap();
    assert_eq!(vals, vec![RespValue::SimpleString("a".into()), RespValue::Integer(2)]);
}

#[test]
fn decode_of_nothing_is_empty_error() {
    assert_eq!(decode(b"").unwrap_err(), RespError::Empty);
}

#[test]
fn decode_one_rejects_unknown_type_byte() {
    assert_eq!(decode_one(b"?x\r\n").unwrap_err(), RespError::InvalidType(b'?'));
}

#[test]
fn bulk_string_with_invalid_utf8_is_invalid_type() {
    assert_eq!(decode_one(b"$1\r\n\xff\r\n").unwrap_err(), RespError::InvalidType(b'$'));
}

#[test]
fn simple_string_replaces_invalid_utf8() {
    let (v, _) = decode_one(b"+a\xffb\r\n").unwrap();
    assert_eq!(v, RespValue::SimpleString("a\u{fffd}b".into()));
}

#[test]
fn decode_array_string_reads_commands() {
    let data = b"*2\r\n$3\r\nGET\r\n+k\r\n*1\r\n$4\r\nPING\r\n";
    let cmds = decode_array_string(data).unwrap();
    assert_eq!(cmds, vec![vec!["GET".to_string(), "k".to_string()], vec!["PING".to_string()]]);
}

#[test]
fn decode_array_string_rejects_non_arrays() {
    assert_eq!(
        decode_array_string(b":1\r\n").unwrap_err(),
        RespError::Parse("expected array of strings".to_string())
    );
}

#[test]
fn decode_array_string_rejects_non_string_items() {
    assert_eq!(
        decode_array_string(b"*1\r\n:5\r\n").unwrap_err(),
        RespError::Parse("array element is not a string: Integer(5)".to_string())
    );
}

#[test]
fn integer_overflow_is_parse_error() {
    assert_eq!(
        decode_one(b":9223372036854775808\r\n").unwrap_err(),
        RespError::Parse("9223372036854775808".to_string())
    );
    let (v, _) = decode_one(b":-9223372036854775808\r\n").unwrap();
    assert_eq!(v, RespValue::Integer(i64::MIN));
}

#[test]
fn decoding_two_frames_together_gives_both_values() {
    let a = b"+OK\r\n:5\r\n".to_vec();
    let b = b"*1\r\n$3\r\nget\r\n".to_vec();
    let va = decode(&a).unwrap();
    let vb = decode(&b).unwrap();
    let mut ab = a.clone();
    ab.extend_from_slice(&b);
    let mut both = va;
    both.extend(vb);
    assert_eq!(decode(&ab).unwrap(), both);
}

#[test]
fn a_frame_ignores_the_bytes_after_it() {
    let (v, n) = decode_one(b"$3\r\nabc\r\n").unwrap();
    assert_eq!(n, 9);
    let (w, m) = decode_one(b"$3\r\nabc\r\n\xff\xfe garbage").unwrap();
    assert_eq!((w, m), (v, n));
}
