use bencode::protocol::decode;
use bencode::protocol::encode;
use bencode::types::Type;

#[test]
fn test_decode_dictionary_list() {
    let t = Type::Dictionary(vec![]);
    let bytes = encode(&t);

    let res = decode(&bytes);
    assert_eq!(res.is_ok(), true);

    match res.ok().unwrap() {
        Type::Dictionary(d) => assert_eq!(d.len(), 0),
        _ => panic!("error"),
    }
}

#[test]
fn test_decode_dictionary_integers() {
    let mut t = Type::Dictionary(vec![]);
    t.insert(b"c".to_vec(), Type::Integer(1));
    t.insert(b"a".to_vec(), Type::Integer(2));
    t.insert(b"aaa".to_vec(), Type::Integer(4));
    let bytes = encode(&t);

    let res = decode(&bytes);
    assert_eq!(res.is_ok(), true);

    match res.ok().unwrap() {
        Type::Dictionary(d) => {
            assert_eq!(d.len(), 3);
            let keys: Vec<Vec<u8>> = d.iter().map(|e| e.0.clone()).collect();
            assert_eq!(keys, [b"a".to_vec(), b"aaa".to_vec(), b"c".to_vec()]);

            match &d[0].1 {
                Type::Integer(i) => assert_eq!(*i, 2),
                _ => panic!("error"),
            }
            match &d[1].1 {
                Type::Integer(i) => assert_eq!(*i, 4),
                _ => panic!("error"),
            }
            match &d[2].1 {
                Type::Integer(i) => assert_eq!(*i, 1),
                _ => panic!("error"),
            }
        },
        _ => panic!("error"),
    }
}

#[test]
fn test_decode_dictionary_strings() {
    let mut t = Type::Dictionary(vec![]);
    t.insert(b"bbb".to_vec(), Type::ByteString(b"val".to_vec()));
    t.insert(b"b".to_vec(), Type::ByteString(b"val4".to_vec()));
    t.insert(b"bb".to_vec(), Type::ByteString(b"val2".to_vec()));
    let bytes = encode(&t);

    let res = decode(&bytes);
    assert_eq!(res.is_ok(), true);

    match res.ok().unwrap() {
        Type::Dictionary(d) => {
            assert_eq!(d.len(), 3);
            let keys: Vec<Vec<u8>> = d.iter().map(|e| e.0.clone()).collect();
            assert_eq!(keys, [b"b".to_vec(), b"bb".to_vec(), b"bbb".to_vec()]);

            match &d[0].1 {
                Type::ByteString(s) => assert_eq!(*s, b"val4".to_vec()),
                _ => panic!("error"),
            }
            match &d[1].1 {
                Type::ByteString(s) => assert_eq!(*s, b"val2".to_vec()),
                _ => panic!("error"),
            }
            match &d[2].1 {
                Type::ByteString(s) => assert_eq!(*s, b"val".to_vec()),
                _ => panic!("error"),
            }
        },
        _ => panic!("error"),
    }
}

#[test]
fn test_decode_dictionary_integers_strings() {
    let mut t = Type::Dictionary(vec![]);
    t.insert(b"bbb".to_vec(), Type::ByteString(b"val".to_vec()));
    t.insert(b"b".to_vec(), Type::ByteString(b"val4".to_vec()));
    t.insert(b"bb".to_vec(), Type::ByteString(b"val2".to_vec()));
    t.insert(b"c".to_vec(), Type::Integer(1));
    t.insert(b"a".to_vec(), Type::Integer(2));
    t.insert(b"aaa".to_vec(), Type::Integer(4));
    let bytes = encode(&t);

    let res = decode(&bytes);
    assert_eq!(res.is_ok(), true);

    match res.ok().unwrap() {
        Type::Dictionary(d) => {
            assert_eq!(d.len(), 6);
            let keys: Vec<Vec<u8>> = d.iter().map(|e| e.0.clone()).collect();
            assert_eq!(
                keys,
                [
                    b"a".to_vec(),
                    b"aaa".to_vec(),
                    b"b".to_vec(),
                    b"bb".to_vec(),
                    b"bbb".to_vec(),
                    b"c".to_vec(),
                ]
            );

            match &d[0].1 {
                Type::Integer(i) => assert_eq!(*i, 2),
                _ => panic!("error"),
            }
            match &d[1].1 {
                Type::Integer(i) => assert_eq!(*i, 4),
                _ => panic!("error"),
            }
            match &d[2].1 {
                Type::ByteString(s) => assert_eq!(*s, b"val4".to_vec()),
                _ => panic!("error"),
            }
            match &d[3].1 {
                Type::ByteString(s) => assert_eq!(*s, b"val2".to_vec()),
                _ => panic!("error"),
            }
            match &d[4].1 {
                Type::ByteString(s) => assert_eq!(*s, b"val".to_vec()),
                _ => panic!("error"),
            }
            match &d[5].1 {
                Type::Integer(i) => assert_eq!(*i, 1),
                _ => panic!("error"),
            }
        },
        _ => panic!("error"),
    }
}

#[test]
fn test_decode_dictionary_integers_strings_lists() {
    let mut t = Type::Dictionary(vec![]);
    t.insert(b"bbb".to_vec(), Type::ByteString(b"val".to_vec()));
    t.insert(b"b".to_vec(), Type::ByteString(b"val4".to_vec()));
    t.insert(b"bb".to_vec(), Type::ByteString(b"val2".to_vec()));
    t.insert(b"c".to_vec(), Type::Integer(1));
    t.insert(b"a".to_vec(), Type::Integer(2));
    t.insert(b"aaa".to_vec(), Type::Integer(4));
    t.insert(b"l1".to_vec(), Type::List(vec![]));
    t.insert(
        b"l2".to_vec(),
        Type::List(vec![Type::Integer(-1), Type::Dictionary(vec![])]),
    );
    let bytes = encode(&t);

    let res = decode(&bytes);
    assert_eq!(res.is_ok(), true);

    match res.ok().unwrap() {
        Type::Dictionary(d) => {
            assert_eq!(d.len(), 8);
            let keys: Vec<Vec<u8>> = d.iter().map(|e| e.0.clone()).collect();
            assert_eq!(
                keys,
                [
                    b"a".to_vec(),
                    b"aaa".to_vec(),
                    b"b".to_vec(),
                    b"bb".to_vec(),
                    b"bbb".to_vec(),
                    b"c".to_vec(),
                    b"l1".to_vec(),
                    b"l2".to_vec(),
                ]
            );

            match &d[0].1 {
                Type::Integer(i) => assert_eq!(*i, 2),
                _ => panic!("error"),
            }
            match &d[1].1 {
                Type::Integer(i) => assert_eq!(*i, 4),
                _ => panic!("error"),
            }
            match &d[2].1 {
                Type::ByteString(s) => assert_eq!(*s, b"val4".to_vec()),
                _ => panic!("error"),
            }
            match &d[3].1 {
                Type::ByteString(s) => assert_eq!(*s, b"val2".to_vec()),
                _ => panic!("error"),
            }
            match &d[4].1 {
                Type::ByteString(s) => assert_eq!(*s, b"val".to_vec()),
                _ => panic!("error"),
            }
            match &d[5].1 {
                Type::Integer(i) => assert_eq!(*i, 1),
                _ => panic!("error"),
            }
            match &d[6].1 {
                Type::List(l) => assert_eq!(l.len(), 0),
                _ => panic!("error"),
            }
            match &d[7].1 {
                Type::List(l) => {
                    assert_eq!(l.len(), 2);

                    match &l[0] {
                        Type::Integer(i) => assert_eq!(*i, -1),
                        _ => panic!("error"),
                    }
                    match &l[1] {
                        Type::Dictionary(dd) => assert_eq!(dd.len(), 0),
                        _ => panic!("error"),
                    }
                },
                _ => panic!("error"),
            }
        },
        _ => panic!("error"),
    }
}
