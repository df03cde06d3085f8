use minikv::{apply, handle_frame, Command, Frame, Store};

fn bulk(s: &str) -> Frame {
    Frame::Bulk(s.as_bytes().to_vec())
}

#[test]
fn set_then_get_returns_the_value() {
    let mut store = Store::new();
    store.set("k".to_string(), b"v".to_vec());
    assert_eq!(store.get(&"k".to_string()), Some(b"v".to_vec()));
}

#[test]
fn get_of_a_key_never_set_is_none() {
    let store = Store::new();
    assert_eq!(store.get(&"missing".to_string()), None);
}

#[test]
fn last_write_wins() {
    let mut store = Store::new();
    store.set("k".to_string(), b"v1".to_vec());
    store.set("k".to_string(), b"v2".to_vec());
    assert_eq!(store.get(&"k".to_string()), Some(b"v2".to_vec()));
}

#[test]
fn distinct_keys_survive_any_interleaving_order() {
    // The same set of writes to distinct keys, in two different orders,
    // leaves every key holding its own value: no update is lost.
    let pairs: Vec<(String, Vec<u8>)> = (0..8)
        .map(|i| (format!("key{}", i), format!("value{}", i).into_bytes()))
        .collect();
    let mut forward = Store::new();
    for (k, v) in pairs.iter() {
        forward.set(k.clone(), v.clone());
    }
    let mut backward = Store::new();
    for (k, v) in pairs.iter().rev() {
        backward.set(k.clone(), v.clone());
    }
    for (k, v) in pairs.iter() {
        assert_eq!(forward.get(k), Some(v.clone()));
        assert_eq!(backward.get(k), Some(v.clone()));
    }
}

#[test]
fn apply_set_answers_ok() {
    let mut store = Store::new();
    let resp = apply(
        &mut store,
        Command::Put {
            key: "k".to_string(),
            value: b"v".to_vec(),
        },
    );
    match resp {
        Frame::Simple(s) => assert_eq!(s, "OK"),
        _ => panic!("expected +OK"),
    }
    assert_eq!(store.get(&"k".to_string()), Some(b"v".to_vec()));
}

#[test]
fn apply_get_answers_bulk_or_null() {
    let mut store = Store::new();
    store.set("k".to_string(), b"v".to_vec());
    match apply(&mut store, Command::Get { key: "k".to_string() }) {
        Frame::Bulk(v) => assert_eq!(v, b"v".to_vec()),
        _ => panic!("expected the bulk value"),
    }
    match apply(&mut store, Command::Get { key: "absent".to_string() }) {
        Frame::Null => {}
        _ => panic!("expected a null frame"),
    }
}

#[test]
fn apply_unknown_answers_an_error_naming_it() {
    let mut store = Store::new();
    match apply(
        &mut store,
        Command::Unknown {
            name: "PING".to_string(),
        },
    ) {
        Frame::Error(t) => assert_eq!(t, "ERR unknown command 'PING'"),
        _ => panic!("expected an error frame"),
    }
}

#[test]
fn arity_error_keeps_the_session_usable() {
    // A SET missing its value earns an error frame, the store is untouched,
    // and the next command on the same store still works.
    let mut store = Store::new();
    let bad = Frame::Array(vec![bulk("SET"), bulk("k")]);
    match handle_frame(&mut store, bad) {
        Frame::Error(_) => {}
        _ => panic!("expected an error frame"),
    }
    assert_eq!(store.get(&"k".to_string()), None);
    let good = Frame::Array(vec![bulk("SET"), bulk("k"), bulk("v")]);
    match handle_frame(&mut store, good) {
        Frame::Simple(s) => assert_eq!(s, "OK"),
        _ => panic!("expected +OK"),
    }
    assert_eq!(store.get(&"k".to_string()), Some(b"v".to_vec()));
}

#[test]
fn handle_frame_answers_get_from_the_store() {
    let mut store = Store::new();
    handle_frame(
        &mut store,
        Frame::Array(vec![bulk("SET"), bulk("name"), bulk("crab")]),
    );
    match handle_frame(&mut store, Frame::Array(vec![bulk("GET"), bulk("name")])) {
        Frame::Bulk(v) => assert_eq!(v, b"crab".to_vec()),
        _ => panic!("expected the stored value"),
    }
    match handle_frame(&mut store, Frame::Array(vec![bulk("GET"), bulk("other")])) {
        Frame::Null => {}
        _ => panic!("expected a null frame"),
    }
}

#[test]
fn non_command_frame_earns_an_error_frame() {
    let mut store = Store::new();
    match handle_frame(&mut store, Frame::Integer(1)) {
        Frame::Error(t) => assert!(t.starts_with("ERR")),
        _ => panic!("expected an error frame"),
    }
}
