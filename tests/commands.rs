use resp_kv::command::Command;
use resp_kv::protocol::RespValue;
use resp_kv::store::Store;

fn bulk(b: &[u8]) -> RespValue {
    RespValue::BulkString(b.to_vec())
}

fn run(store: &mut Store, parts: Vec<RespValue>) -> Vec<u8> {
    Command::parse_from_resp_array(parts).execute(store).to_bytes()
}

#[test]
fn parses_set_get_del_quit() {
    let c = Command::parse_from_resp_array(vec![bulk(b"SET"), bulk(b"k"), bulk(b"\xde\xad")]);
    assert!(matches!(c, Command::SetValue { ref key, ref value } if key == "k" && value == &vec![0xde, 0xad]));
    let c = Command::parse_from_resp_array(vec![bulk(b"get"), bulk(b"k")]);
    assert!(matches!(c, Command::Get { ref key } if key == "k"));
    let c = Command::parse_from_resp_array(vec![RespValue::SimpleString(b"Del".to_vec()), bulk(b"k")]);
    assert!(matches!(c, Command::Del { ref key } if key == "k"));
    let c = Command::parse_from_resp_array(vec![bulk(b"quit"), bulk(b"a"), RespValue::Null]);
    assert!(matches!(c, Command::Quit));
}

#[test]
fn set_keeps_extra_arguments_out() {
    let c = Command::parse_from_resp_array(vec![bulk(b"SET"), bulk(b"k"), bulk(b"v"), bulk(b"extra")]);
    assert!(matches!(c, Command::SetValue { ref key, ref value } if key == "k" && value == b"v"));
}

#[test]
fn malformed_commands_are_unknown() {
    let cases: Vec<Vec<RespValue>> = vec![
        Vec::new(),
        vec![RespValue::Integer(1), bulk(b"k")],
        vec![RespValue::Null],
        vec![bulk(b"SET"), bulk(b"k")],
        vec![bulk(b"SET"), RespValue::SimpleString(b"k".to_vec()), bulk(b"v")],
        vec![bulk(b"SET"), bulk(b"k"), RespValue::Integer(3)],
        vec![bulk(b"GET")],
        vec![bulk(b"GET"), bulk(b"a"), bulk(b"b")],
        vec![bulk(b"GET"), RespValue::Integer(1)],
        vec![bulk(b"DEL"), bulk(b"a"), bulk(b"b")],
        vec![bulk(b"PING")],
        vec![bulk(b"GETX"), bulk(b"k")],
    ];
    for parts in cases {
        assert!(matches!(Command::parse_from_resp_array(parts), Command::Unknown));
    }
}

#[test]
fn unknown_command_gets_fixed_error() {
    let mut store = Store::new();
    assert_eq!(
        run(&mut store, vec![RespValue::Integer(7)]),
        b"-ERR unknown command or malformed command arguments\r\n".to_vec()
    );
    assert_eq!(
        run(&mut store, Vec::new()),
        b"-ERR unknown command or malformed command arguments\r\n".to_vec()
    );
}

#[test]
fn key_bytes_are_decoded_lossily() {
    let c = Command::parse_from_resp_array(vec![bulk(b"GET"), bulk(b"a\xffb")]);
    assert!(matches!(c, Command::Get { ref key } if key == "a\u{FFFD}b"));
}

#[test]
fn set_then_get_is_binary_safe() {
    let mut store = Store::new();
    assert_eq!(run(&mut store, vec![bulk(b"SET"), bulk(b"k"), bulk(&[0xde, 0xad, 0xbe, 0xef, 0x00])]), b"+OK\r\n".to_vec());
    assert_eq!(
        run(&mut store, vec![bulk(b"GET"), bulk(b"k")]),
        vec![b'$', b'5', b'\r', b'\n', 0xde, 0xad, 0xbe, 0xef, 0x00, b'\r', b'\n']
    );
}

#[test]
fn absent_keys_and_delete() {
    let mut store = Store::new();
    assert_eq!(run(&mut store, vec![bulk(b"GET"), bulk(b"k")]), b"$-1\r\n".to_vec());
    assert_eq!(run(&mut store, vec![bulk(b"DEL"), bulk(b"k")]), b":0\r\n".to_vec());
    run(&mut store, vec![bulk(b"SET"), bulk(b"k"), bulk(b"v")]);
    assert_eq!(run(&mut store, vec![bulk(b"DEL"), bulk(b"k")]), b":1\r\n".to_vec());
    assert_eq!(run(&mut store, vec![bulk(b"GET"), bulk(b"k")]), b"$-1\r\n".to_vec());
    assert_eq!(run(&mut store, vec![bulk(b"DEL"), bulk(b"k")]), b":0\r\n".to_vec());
}

#[test]
fn last_write_wins() {
    let mut store = Store::new();
    run(&mut store, vec![bulk(b"SET"), bulk(b"k"), bulk(b"v1")]);
    run(&mut store, vec![bulk(b"SET"), bulk(b"k"), bulk(b"v2")]);
    assert_eq!(run(&mut store, vec![bulk(b"GET"), bulk(b"k")]), b"$2\r\nv2\r\n".to_vec());
}

#[test]
fn quit_reply_is_fixed() {
    let mut store = Store::new();
    assert_eq!(
        run(&mut store, vec![bulk(b"QUIT")]),
        b"+Connection closing shortly\r\n".to_vec()
    );
}

#[test]
fn interleaved_clients_on_disjoint_keys_see_their_own_writes() {
    let mut store = Store::new();
    run(&mut store, vec![bulk(b"SET"), bulk(b"a"), bulk(b"1")]);
    run(&mut store, vec![bulk(b"SET"), bulk(b"b"), bulk(b"2")]);
    assert_eq!(run(&mut store, vec![bulk(b"GET"), bulk(b"a")]), b"$1\r\n1\r\n".to_vec());
    run(&mut store, vec![bulk(b"DEL"), bulk(b"b")]);
    assert_eq!(run(&mut store, vec![bulk(b"GET"), bulk(b"a")]), b"$1\r\n1\r\n".to_vec());
    assert_eq!(run(&mut store, vec![bulk(b"GET"), bulk(b"b")]), b"$-1\r\n".to_vec());
}

#[test]
fn store_methods() {
    let mut store = Store::new();
    assert!(store.get(&"x".to_string()).is_none());
    store.set("x".to_string(), b"1".to_vec());
    store.set("y".to_string(), b"2".to_vec());
    store.set("x".to_string(), b"3".to_vec());
    assert_eq!(store.get(&"x".to_string()), Some(b"3".to_vec()));
    assert_eq!(store.get(&"y".to_string()), Some(b"2".to_vec()));
    assert!(store.del(&"x".to_string()));
    assert!(!store.del(&"x".to_string()));
    assert_eq!(store.get(&"y".to_string()), Some(b"2".to_vec()));
}

#[test]
fn store_free_replies() {
    let quit = Command::parse_from_resp_array(vec![bulk(b"QUIT")]);
    assert_eq!(
        quit.reply_without_store().unwrap().to_bytes(),
        b"+Connection closing shortly\r\n".to_vec()
    );
    let unknown = Command::parse_from_resp_array(vec![bulk(b"NOPE")]);
    assert_eq!(
        unknown.reply_without_store().unwrap().to_bytes(),
        b"-ERR unknown command or malformed command arguments\r\n".to_vec()
    );
    let get = Command::parse_from_resp_array(vec![bulk(b"GET"), bulk(b"k")]);
    assert!(get.reply_without_store().is_none());
    let copy = get.clone();
    assert!(matches!(copy, Command::Get { ref key } if key == "k"));
}
