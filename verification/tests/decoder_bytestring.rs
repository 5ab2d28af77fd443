use bencode::protocol::decode;
use bencode::protocol::encode;
use bencode::types::Type;

#[test]
fn test_decode_empty_string() {
    let t = Type::ByteString(b"".to_vec());
    let bytes = encode(&t);

    let res = decode(&bytes);
    assert_eq!(res.is_ok(), true);

    match res.ok().unwrap() {
        Type::ByteString(s) => assert_eq!(s, b"".to_vec()),
        _ => panic!("error"),
    }
}

#[test]
fn test_decode_string() {
    let t = Type::ByteString(b"str".to_vec());
    let bytes = encode(&t);

    let res = decode(&bytes);
    assert_eq!(res.is_ok(), true);

    match res.ok().unwrap() {
        Type::ByteString(s) => assert_eq!(s, b"str".to_vec()),
        _ => panic!("error"),
    }
}

#[test]
fn test_decode_string_with_whitespaces() {
    let t = Type::ByteString(b"str   str   str".to_vec());
    let bytes = encode(&t);

    let res = decode(&bytes);
    assert_eq!(res.is_ok(), true);

    match res.ok().unwrap() {
        Type::ByteString(s) => assert_eq!(s, b"str   str   str".to_vec()),
        _ => panic!("error"),
    }
}

#[test]
fn test_decode_string_with_numbers() {
    let t = Type::ByteString(b"1222 str 11112".to_vec());
    let bytes = encode(&t);

    let res = decode(&bytes);
    assert_eq!(res.is_ok(), true);

    match res.ok().unwrap() {
        Type::ByteString(s) => assert_eq!(s, b"1222 str 11112".to_vec()),
        _ => panic!("error"),
    }
}

#[test]
fn test_decode_string_with_newlines() {
    let t = Type::ByteString(b"1222 str 11112 \r\n 123".to_vec());
    let bytes = encode(&t);

    let res = decode(&bytes);
    assert_eq!(res.is_ok(), true);

    match res.ok().unwrap() {
        Type::ByteString(s) => assert_eq!(s, b"1222 str 11112 \r\n 123".to_vec()),
        _ => panic!("error"),
    }
}

#[test]
fn test_decode_string_with_delimiter() {
    let t = Type::ByteString(b":1".to_vec());
    let bytes = encode(&t);

    let res = decode(&bytes);
    assert_eq!(res.is_ok(), true);

    match res.ok().unwrap() {
        Type::ByteString(s) => assert_eq!(s, b":1".to_vec()),
        _ => panic!("error"),
    }
}

#[test]
fn test_decode_string_binary_safe() {
    let t = Type::ByteString(b"1222 str 11112 \r\n 123 ::: :::".to_vec());
    let bytes = encode(&t);

    let res = decode(&bytes);
    assert_eq!(res.is_ok(), true);

    match res.ok().unwrap() {
        Type::ByteString(s) => assert_eq!(s, b"1222 str 11112 \r\n 123 ::: :::".to_vec()),
        _ => panic!("error"),
    }
}

#[test]
fn bytestring_test_decode_empty_sequence() {
    let bytes = "".bytes().collect::<Vec<u8>>();

    let res = decode(&bytes);
    assert_eq!(res.is_err(), true);

    let err = res.err().unwrap();
    assert_eq!(err.message(), "empty byte sequence");
}

#[test]
fn test_decode_start_with_non_digit_bytes() {
    let bytes = "2str:str".bytes().collect::<Vec<u8>>();

    let res = decode(&bytes);
    assert_eq!(res.is_err(), true);

    let err = res.err().unwrap();
    assert_eq!(err.message(), "invalid end byte for type: byte string");
}

#[test]
fn test_decode_missing_length() {
    let bytes = ":24".bytes().collect::<Vec<u8>>();

    let res = decode(&bytes);
    assert_eq!(res.is_err(), true);

    let err = res.err().unwrap();
    assert_eq!(err.message(), "invalid start byte");
}

#[test]
fn test_decode_invalid_length_less() {
    let bytes = "2:1".bytes().collect::<Vec<u8>>();

    let res = decode(&bytes);
    assert_eq!(res.is_err(), true);

    let err = res.err().unwrap();
    assert_eq!(err.message(), "invalid byte string length");
}

#[test]
fn test_decode_invalid_length_more() {
    let bytes = "2:strstr".bytes().collect::<Vec<u8>>();

    let res = decode(&bytes);
    assert_eq!(res.is_err(), true);

    let err = res.err().unwrap();
    assert_eq!(err.message(), "invalid byte sequence");
}

#[test]
fn test_decode_missing_delimiter() {
    let bytes = "2ok".bytes().collect::<Vec<u8>>();

    let res = decode(&bytes);
    assert_eq!(res.is_err(), true);

    let err = res.err().unwrap();
    assert_eq!(err.message(), "invalid end byte for type: byte string");
}

#[test]
fn test_decode_invalid_length_spec() {
    let bytes = "2tt4:121212".bytes().collect::<Vec<u8>>();

    let res = decode(&bytes);
    assert_eq!(res.is_err(), true);

    let err = res.err().unwrap();
    assert_eq!(err.message(), "invalid end byte for type: byte string");
}

#[test]
fn test_decode_invalid_length_spec_missing_digits() {
    let bytes = "str:str".bytes().collect::<Vec<u8>>();

    let res = decode(&bytes);
    assert_eq!(res.is_err(), true);

    let err = res.err().unwrap();
    assert_eq!(err.message(), "invalid start byte");
}
