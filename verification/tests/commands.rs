use roar::handle_request;
use roar::Command;
use roar::DataType;
use roar::Store;

fn bulk(s: &str) -> DataType {
    DataType::BulkString(s.to_string())
}

fn run(store: &mut Store, name: &str, args: &[&str]) -> DataType {
    let arguments: Vec<DataType> = args.iter().map(|a| bulk(a)).collect();
    Command::handle_command(&name.to_string(), &arguments, store)
}

#[test]
fn ping_answers_pong() {
    let mut store = Store::new();
    assert_eq!(
        run(&mut store, "PING", &[]),
        DataType::SimpleString("PONG".to_string())
    );
}

#[test]
fn echo_answers_its_argument() {
    let mut store = Store::new();
    assert_eq!(run(&mut store, "echo", &["hello world"]), bulk("hello world"));
}

#[test]
fn set_then_get_returns_last_value_set() {
    let mut store = Store::new();
    assert_eq!(
        run(&mut store, "set", &["k", "v1"]),
        DataType::SimpleString("OK".to_string())
    );
    run(&mut store, "set", &["other", "noise"]);
    assert_eq!(run(&mut store, "get", &["k"]), bulk("v1"));
    run(&mut store, "set", &["k", "v2"]);
    run(&mut store, "set", &["another", "noise"]);
    assert_eq!(run(&mut store, "get", &["k"]), bulk("v2"));
}

#[test]
fn get_of_an_absent_key_is_null() {
    let mut store = Store::new();
    assert_eq!(run(&mut store, "get", &["nothing"]), DataType::Null);
}

#[test]
fn exists_answers_one_or_zero() {
    let mut store = Store::new();
    assert_eq!(run(&mut store, "exists", &["k"]), DataType::Integer(0));
    run(&mut store, "set", &["k", "v"]);
    assert_eq!(run(&mut store, "exists", &["k"]), DataType::Integer(1));
}

#[test]
fn del_counts_what_existed_and_only_once() {
    let mut store = Store::new();
    run(&mut store, "set", &["a", "1"]);
    run(&mut store, "set", &["b", "2"]);
    // two of the three keys exist
    assert_eq!(
        run(&mut store, "del", &["a", "b", "c"]),
        DataType::Integer(2)
    );
    // a second delete of the same keys finds nothing
    assert_eq!(
        run(&mut store, "del", &["a", "b", "c"]),
        DataType::Integer(0)
    );
}

#[test]
fn incr_starts_absent_keys_at_one() {
    let mut store = Store::new();
    assert_eq!(run(&mut store, "incr", &["n"]), DataType::Integer(1));
    assert_eq!(run(&mut store, "incr", &["n"]), DataType::Integer(2));
    assert_eq!(run(&mut store, "get", &["n"]), bulk("2"));
}

#[test]
fn incr_rejects_text_and_leaves_it_unchanged() {
    let mut store = Store::new();
    run(&mut store, "set", &["k", "abc"]);
    assert_eq!(
        run(&mut store, "incr", &["k"]),
        DataType::Error("value is not an integer or out of range".to_string())
    );
    assert_eq!(run(&mut store, "get", &["k"]), bulk("abc"));
}

#[test]
fn incr_rejects_a_step_out_of_range() {
    let mut store = Store::new();
    run(&mut store, "set", &["k", "9223372036854775807"]);
    assert_eq!(
        run(&mut store, "incr", &["k"]),
        DataType::Error("value is not an integer or out of range".to_string())
    );
    assert_eq!(run(&mut store, "get", &["k"]), bulk("9223372036854775807"));
}

#[test]
fn decr_steps_down() {
    let mut store = Store::new();
    assert_eq!(run(&mut store, "decr", &["n"]), DataType::Integer(-1));
    run(&mut store, "set", &["m", "10"]);
    assert_eq!(run(&mut store, "decr", &["m"]), DataType::Integer(9));
}

#[test]
fn rpush_appends_in_argument_order() {
    let mut store = Store::new();
    assert_eq!(
        run(&mut store, "rpush", &["key", "a", "b"]),
        DataType::Integer(2)
    );
    assert_eq!(
        run(&mut store, "rpush", &["key", "c"]),
        DataType::Integer(3)
    );
    let list = store.get_list(&"key".to_string()).unwrap();
    assert_eq!(list, vec!["a".to_string(), "b".to_string(), "c".to_string()]);
}

#[test]
fn lpush_prepends_each_argument_in_turn() {
    let mut store = Store::new();
    assert_eq!(
        run(&mut store, "lpush", &["key", "a", "b"]),
        DataType::Integer(2)
    );
    // a b on an empty list yields [b, a]
    assert_eq!(
        store.get_list(&"key".to_string()).unwrap(),
        vec!["b".to_string(), "a".to_string()]
    );
    assert_eq!(
        run(&mut store, "lpush", &["key", "c"]),
        DataType::Integer(3)
    );
    assert_eq!(
        store.get_list(&"key".to_string()).unwrap(),
        vec!["c".to_string(), "b".to_string(), "a".to_string()]
    );
}

#[test]
fn rpush_on_a_scalar_key_is_refused_and_creates_no_list() {
    let mut store = Store::new();
    run(&mut store, "set", &["k", "v"]);
    assert_eq!(
        run(&mut store, "rpush", &["k", "x"]),
        DataType::Error("value is not an array".to_string())
    );
    assert_eq!(store.get_list(&"k".to_string()), None);
    // the scalar value is still there
    assert_eq!(run(&mut store, "get", &["k"]), bulk("v"));
}

#[test]
fn unknown_commands_are_answered_with_an_error() {
    let mut store = Store::new();
    assert_eq!(
        run(&mut store, "flush", &[]),
        DataType::Error("ERR unknown command".to_string())
    );
}

#[test]
fn command_names_ignore_case() {
    let mut store = Store::new();
    assert_eq!(
        run(&mut store, "PiNg", &[]),
        DataType::SimpleString("PONG".to_string())
    );
    run(&mut store, "SET", &["k", "v"]);
    assert_eq!(run(&mut store, "GeT", &["k"]), bulk("v"));
}

#[test]
fn two_sets_on_distinct_keys_are_both_visible() {
    // whichever order the two writers run in, neither update is lost
    let mut ab = Store::new();
    run(&mut ab, "set", &["k1", "v1"]);
    run(&mut ab, "set", &["k2", "v2"]);
    let mut ba = Store::new();
    run(&mut ba, "set", &["k2", "v2"]);
    run(&mut ba, "set", &["k1", "v1"]);
    for store in [&mut ab, &mut ba] {
        assert_eq!(run(store, "get", &["k1"]), bulk("v1"));
        assert_eq!(run(store, "get", &["k2"]), bulk("v2"));
    }
}

#[test]
fn wire_scenario_ping_echo_set_get() {
    let mut store = Store::new();
    assert_eq!(
        handle_request("*1\r\n$4\r\nPING\r\n", &mut store).unwrap(),
        "+PONG\r\n"
    );
    assert_eq!(
        handle_request("*2\r\n$4\r\nECHO\r\n$5\r\nhello\r\n", &mut store).unwrap(),
        "$5\r\nhello\r\n"
    );
    assert_eq!(
        handle_request("*3\r\n$3\r\nSET\r\n$1\r\nk\r\n$1\r\nv\r\n", &mut store).unwrap(),
        "+OK\r\n"
    );
    assert_eq!(
        handle_request("*2\r\n$3\r\nGET\r\n$1\r\nk\r\n", &mut store).unwrap(),
        "$1\r\nv\r\n"
    );
}

#[test]
fn malformed_or_odd_shaped_reads_get_no_reply() {
    let mut store = Store::new();
    // truncated frame
    assert_eq!(handle_request("*1\r\n$4\r\nPIN", &mut store), None);
    // a top-level value that is not an array
    assert_eq!(handle_request("+PING\r\n", &mut store), None);
    // an array whose first element is not a bulk string
    assert_eq!(handle_request("*1\r\n:4\r\n", &mut store), None);
    // a command with its arguments missing
    assert_eq!(handle_request("*1\r\n$4\r\nECHO\r\n", &mut store), None);
    // none of that touched the store
    assert_eq!(run(&mut store, "exists", &["k"]), DataType::Integer(0));
}
