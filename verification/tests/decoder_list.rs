use bencode::protocol::decode;
use bencode::protocol::encode;
use bencode::types::Type;

#[test]
fn test_decode_empty_list() {
    let t = Type::List(vec![]);
    let bytes = encode(&t);

    let res = decode(&bytes);
    assert_eq!(res.is_ok(), true);

    match res.ok().unwrap() {
        Type::List(v) => assert_eq!(v.len(), 0),
        _ => panic!("error"),
    }
}

#[test]
fn test_decode_list_of_integers() {
    let t = Type::List(vec![
        Type::Integer(0),
        Type::Integer(2023),
        Type::Integer(-2023),
    ]);
    let bytes = encode(&t);

    let res = decode(&bytes);
    assert_eq!(res.is_ok(), true);

    match res.ok().unwrap() {
        Type::List(v) => {
            assert_eq!(v.len(), 3);

            match &v[0] {
                Type::Integer(i) => assert_eq!(*i, 0),
                _ => panic!("error"),
            }
            match &v[1] {
                Type::Integer(i) => assert_eq!(*i, 2023),
                _ => panic!("error"),
            }
            match &v[2] {
                Type::Integer(i) => assert_eq!(*i, -2023),
                _ => panic!("error"),
            }
        },
        _ => panic!("error"),
    }
}

#[test]
fn test_decode_list_of_binary_strings() {
    let t = Type::List(vec![
        Type::ByteString(b"123 abc\n".to_vec()),
        Type::ByteString(b"ok".to_vec()),
        Type::ByteString(b"rust".to_vec()),
        Type::ByteString(b"bencode 2023 bencode".to_vec()),
    ]);
    let bytes = encode(&t);

    let res = decode(&bytes);
    assert_eq!(res.is_ok(), true);

    match res.ok().unwrap() {
        Type::List(v) => {
            assert_eq!(v.len(), 4);

            match &v[0] {
                Type::ByteString(s) => assert_eq!(*s, b"123 abc\n".to_vec()),
                _ => panic!("error"),
            }
            match &v[1] {
                Type::ByteString(s) => assert_eq!(*s, b"ok".to_vec()),
                _ => panic!("error"),
            }
            match &v[2] {
                Type::ByteString(s) => assert_eq!(*s, b"rust".to_vec()),
                _ => panic!("error"),
            }
            match &v[3] {
                Type::ByteString(s) => assert_eq!(*s, b"bencode 2023 bencode".to_vec()),
                _ => panic!("error"),
            }
        },
        _ => panic!("error"),
    }
}

#[test]
fn test_decode_list_of_integers_and_strings() {
    let t = Type::List(vec![
        Type::ByteString(b"123 abc\n".to_vec()),
        Type::Integer(1),
        Type::ByteString(b"ok".to_vec()),
        Type::ByteString(b"rust".to_vec()),
        Type::ByteString(b"bencode 2023 bencode".to_vec()),
        Type::Integer(-54),
    ]);
    let bytes = encode(&t);

    let res = decode(&bytes);
    assert_eq!(res.is_ok(), true);

    match res.ok().unwrap() {
        Type::List(v) => {
            assert_eq!(v.len(), 6);

            match &v[0] {
                Type::ByteString(s) => assert_eq!(*s, b"123 abc\n".to_vec()),
                _ => panic!("error"),
            }
            match &v[1] {
                Type::Integer(i) => assert_eq!(*i, 1),
                _ => panic!("error"),
            }
            match &v[2] {
                Type::ByteString(s) => assert_eq!(*s, b"ok".to_vec()),
                _ => panic!("error"),
            }
            match &v[3] {
                Type::ByteString(s) => assert_eq!(*s, b"rust".to_vec()),
                _ => panic!("error"),
            }
            match &v[4] {
                Type::ByteString(s) => assert_eq!(*s, b"bencode 2023 bencode".to_vec()),
                _ => panic!("error"),
            }
            match &v[5] {
                Type::Integer(i) => assert_eq!(*i, -54),
                _ => panic!("error"),
            }
        },
        _ => panic!("error"),
    }
}

#[test]
fn test_decode_list_of_integers_and_strings_and_lists() {
    let t = Type::List(vec![
        Type::ByteString(b"123 abc\n".to_vec()),
        Type::Integer(1),
        Type::List(vec![]),
        Type::ByteString(b"ok".to_vec()),
        Type::ByteString(b"rust".to_vec()),
        Type::List(vec![
            Type::ByteString(b"bytestr".to_vec()),
            Type::Integer(202),
        ]),
        Type::ByteString(b"bencode 2023 bencode".to_vec()),
        Type::Integer(-54),
    ]);
    let bytes = encode(&t);

    let res = decode(&bytes);
    assert_eq!(res.is_ok(), true);

    match res.ok().unwrap() {
        Type::List(v) => {
            assert_eq!(v.len(), 8);

            match &v[0] {
                Type::ByteString(s) => assert_eq!(*s, b"123 abc\n".to_vec()),
                _ => panic!("error"),
            }
            match &v[1] {
                Type::Integer(i) => assert_eq!(*i, 1),
                _ => panic!("error"),
            }
            match &v[2] {
                Type::List(l) => assert_eq!(l.len(), 0),
                _ => panic!("error"),
            }
            match &v[3] {
                Type::ByteString(s) => assert_eq!(*s, b"ok".to_vec()),
                _ => panic!("error"),
            }
            match &v[4] {
                Type::ByteString(s) => assert_eq!(*s, b"rust".to_vec()),
                _ => panic!("error"),
            }
            match &v[5] {
                Type::List(l) => {
                    assert_eq!(l.len(), 2);

                    match &l[0] {
                        Type::ByteString(s) => assert_eq!(*s, b"bytestr".to_vec()),
                        _ => panic!("error"),
                    }
                    match &l[1] {
                        Type::Integer(i) => assert_eq!(*i, 202),
                        _ => panic!("error"),
                    }
                },
                _ => panic!("error"),
            }
            match &v[6] {
                Type::ByteString(s) => assert_eq!(*s, b"bencode 2023 bencode".to_vec()),
                _ => panic!("error"),
            }
            match &v[7] {
                Type::Integer(i) => assert_eq!(*i, -54),
                _ => panic!("error"),
            }
        },
        _ => panic!("error"),
    }
}

#[test]
fn test_decode_list_of_lists() {
    let t = Type::List(vec![
        Type::List(vec![
            Type::ByteString(b"123 abc\n".to_vec()),
            Type::Integer(1),
            Type::ByteString(b"bencode 2023 bencode".to_vec()),
            Type::Integer(-54),
        ]),
        Type::List(vec![
            Type::ByteString(b"ok".to_vec()),
            Type::ByteString(b"rust".to_vec()),
        ]),
        Type::List(vec![
            Type::ByteString(b"bytestr".to_vec()),
            Type::Integer(202),
        ]),
    ]);
    let bytes = encode(&t);

    let res = decode(&bytes);
    assert_eq!(res.is_ok(), true);

    match res.ok().unwrap() {
        Type::List(v) => {
            assert_eq!(v.len(), 3);

            match &v[0] {
                Type::List(l) => {
                    assert_eq!(l.len(), 4);
                    match &l[0] {
                        Type::ByteString(s) => assert_eq!(*s, b"123 abc\n".to_vec()),
                        _ => panic!("error"),
                    }
                    match &l[1] {
                        Type::Integer(i) => assert_eq!(*i, 1),
                        _ => panic!("error"),
                    }
                    match &l[2] {
                        Type::ByteString(s) => assert_eq!(*s, b"bencode 2023 bencode".to_vec()),
                        _ => panic!("error"),
                    }
                    match &l[3] {
                        Type::Integer(i) => assert_eq!(*i, -54),
                        _ => panic!("error"),
                    }
                },
                _ => panic!("error"),
            }
            match &v[1] {
                Type::List(l) => {
                    assert_eq!(l.len(), 2);
                    match &l[0] {
                        Type::ByteString(s) => assert_eq!(*s, b"ok".to_vec()),
                        _ => panic!("error"),
                    }
                    match &l[1] {
                        Type::ByteString(s) => assert_eq!(*s, b"rust".to_vec()),
                        _ => panic!("error"),
                    }
                },
                _ => panic!("error"),
            }
            match &v[2] {
                Type::List(l) => {
                    assert_eq!(l.len(), 2);

                    match &l[0] {
                        Type::ByteString(s) => assert_eq!(*s, b"bytestr".to_vec()),
                        _ => panic!("error"),
                    }
                    match &l[1] {
                        Type::Integer(i) => assert_eq!(*i, 202),
                        _ => panic!("error"),
                    }
                },
                _ => panic!("error"),
            }
        },
        _ => panic!("error"),
    }
}

#[test]
fn test_decode_list_of_dictionaries() {
    let mut d1 = Type::Dictionary(vec![]);
    d1.insert(b"k".to_vec(), Type::Integer(1));
    d1.insert(b"c".to_vec(), Type::ByteString(b"abc".to_vec()));
    let mut d2 = Type::Dictionary(vec![]);
    d2.insert(b"a".to_vec(), Type::Integer(101));
    d2.insert(b"b".to_vec(), Type::Integer(539));
    let t = Type::List(vec![d1, d2]);
    let bytes = encode(&t);

    let res = decode(&bytes);
    assert_eq!(res.is_ok(), true);

    match res.ok().unwrap() {
        Type::List(v) => {
            assert_eq!(v.len(), 2);

            match &v[0] {
                Type::Dictionary(d) => {
                    let keys: Vec<Vec<u8>> = d.iter().map(|e| e.0.clone()).collect();
                    assert_eq!(keys, [b"c".to_vec(), b"k".to_vec()]);
                },
                _ => panic!("error"),
            }
            match &v[1] {
                Type::Dictionary(d) => {
                    let keys: Vec<Vec<u8>> = d.iter().map(|e| e.0.clone()).collect();
                    assert_eq!(keys, [b"a".to_vec(), b"b".to_vec()]);
                },
                _ => panic!("error"),
            }
        },
        _ => panic!("error"),
    }
}

#[test]
fn test_decode_list_of_dictionaries_check_values() {
    let mut d1 = Type::Dictionary(vec![]);
    d1.insert(b"k".to_vec(), Type::Integer(1));
    d1.insert(b"c".to_vec(), Type::ByteString(b"abc".to_vec()));
    let mut d2 = Type::Dictionary(vec![]);
    d2.insert(b"a".to_vec(), Type::Integer(101));
    d2.insert(b"b".to_vec(), Type::Integer(-539));
    let t = Type::List(vec![d1, d2]);
    let bytes = encode(&t);

    let res = decode(&bytes);
    assert_eq!(res.is_ok(), true);

    match res.ok().unwrap() {
        Type::List(v) => {
            assert_eq!(v.len(), 2);

            match &v[0] {
                Type::Dictionary(d) => {
                    let keys: Vec<Vec<u8>> = d.iter().map(|e| e.0.clone()).collect();
                    assert_eq!(keys, [b"c".to_vec(), b"k".to_vec()]);
                    assert_eq!(d.len(), 2);

                    match &d[0].1 {
                        Type::ByteString(s) => assert_eq!(*s, b"abc".to_vec()),
                        _ => panic!("error"),
                    }
                    match &d[1].1 {
                        Type::Integer(i) => assert_eq!(*i, 1),
                        _ => panic!("error"),
                    }
                },
                _ => panic!("error"),
            }
            match &v[1] {
                Type::Dictionary(d) => {
                    let keys: Vec<Vec<u8>> = d.iter().map(|e| e.0.clone()).collect();
                    assert_eq!(keys, [b"a".to_vec(), b"b".to_vec()]);
                    assert_eq!(d.len(), 2);

                    match &d[0].1 {
                        Type::Integer(i) => assert_eq!(*i, 101),
                        _ => panic!("error"),
                    }
                    match &d[1].1 {
                        Type::Integer(i) => assert_eq!(*i, -539),
                        _ => panic!("error"),
                    }
                },
                _ => panic!("error"),
            }
        },
        _ => panic!("error"),
    }
}

#[test]
fn test_decode_list_of_dictionaries_check_values_empty_dict() {
    let mut d1 = Type::Dictionary(vec![]);
    d1.insert(b"k".to_vec(), Type::Integer(1));
    d1.insert(b"c".to_vec(), Type::ByteString(b"abc".to_vec()));
    let t = Type::List(vec![d1, Type::Dictionary(vec![])]);
    let bytes = encode(&t);

    let res = decode(&bytes);
    assert_eq!(res.is_ok(), true);

    match res.ok().unwrap() {
        Type::List(v) => {
            assert_eq!(v.len(), 2);

            match &v[0] {
                Type::Dictionary(d) => {
                    let keys: Vec<Vec<u8>> = d.iter().map(|e| e.0.clone()).collect();
                    assert_eq!(keys, [b"c".to_vec(), b"k".to_vec()]);
                    assert_eq!(d.len(), 2);

                    match &d[0].1 {
                        Type::ByteString(s) => assert_eq!(*s, b"abc".to_vec()),
                        _ => panic!("error"),
                    }
                    match &d[1].1 {
                        Type::Integer(i) => assert_eq!(*i, 1),
                        _ => panic!("error"),
                    }
                },
                _ => panic!("error"),
            }
            match &v[1] {
                Type::Dictionary(d) => {
                    assert_eq!(d.len(), 0);
                },
                _ => panic!("error"),
            }
        },
        _ => panic!("error"),
    }
}

#[test]
fn test_decode_list_all() {
    let mut d1 = Type::Dictionary(vec![]);
    d1.insert(b"k".to_vec(), Type::Integer(1));
    d1.insert(b"c".to_vec(), Type::ByteString(b"abc".to_vec()));
    let mut d2 = Type::Dictionary(vec![]);
    d2.insert(b"a".to_vec(), Type::Integer(101));
    d2.insert(b"b".to_vec(), Type::Integer(-539));
    let t = Type::List(vec![
        d1,
        d2,
        Type::List(vec![
            Type::ByteString(b"123 abc\n".to_vec()),
            Type::Integer(1),
            Type::ByteString(b"bencode 2023 bencode".to_vec()),
            Type::Integer(-54),
        ]),
    ]);
    let bytes = encode(&t);

    let res = decode(&bytes);
    assert_eq!(res.is_ok(), true);

    match res.ok().unwrap() {
        Type::List(v) => {
            assert_eq!(v.len(), 3);

            match &v[0] {
                Type::Dictionary(d) => {
                    let keys: Vec<Vec<u8>> = d.iter().map(|e| e.0.clone()).collect();
                    assert_eq!(keys, [b"c".to_vec(), b"k".to_vec()]);
                    assert_eq!(d.len(), 2);

                    match &d[0].1 {
                        Type::ByteString(s) => assert_eq!(*s, b"abc".to_vec()),
                        _ => panic!("error"),
                    }
                    match &d[1].1 {
                        Type::Integer(i) => assert_eq!(*i, 1),
                        _ => panic!("error"),
                    }
                },
                _ => panic!("error"),
            }
            match &v[1] {
                Type::Dictionary(d) => {
                    let keys: Vec<Vec<u8>> = d.iter().map(|e| e.0.clone()).collect();
                    assert_eq!(keys, [b"a".to_vec(), b"b".to_vec()]);
                    assert_eq!(d.len(), 2);

                    match &d[0].1 {
                        Type::Integer(i) => assert_eq!(*i, 101),
                        _ => panic!("error"),
                    }
                    match &d[1].1 {
                        Type::Integer(i) => assert_eq!(*i, -539),
                        _ => panic!("error"),
                    }
                },
                _ => panic!("error"),
            }
            match &v[2] {
                Type::List(l) => {
                    assert_eq!(l.len(), 4);
                    match &l[0] {
                        Type::ByteString(s) => assert_eq!(*s, b"123 abc\n".to_vec()),
                        _ => panic!("error"),
                    }
                    match &l[1] {
                        Type::Integer(i) => assert_eq!(*i, 1),
                        _ => panic!("error"),
                    }
                    match &l[2] {
                        Type::ByteString(s) => assert_eq!(*s, b"bencode 2023 bencode".to_vec()),
                        _ => panic!("error"),
                    }
                    match &l[3] {
                        Type::Integer(i) => assert_eq!(*i, -54),
                        _ => panic!("error"),
                    }
                },
                _ => panic!("error"),
            }
        },
        _ => panic!("error"),
    }
}
