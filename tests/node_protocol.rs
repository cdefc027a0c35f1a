use shardkv::node::DHT;
use shardkv::protocol::{parse_request, Reply, Request};
use shardkv::text::{parse_i32, request_line, split_bytes};

fn send(node: &mut DHT, line: &str) -> String {
    node.handle_request(line.as_bytes()).to_line()
}

#[test]
fn set_then_get_returns_value_from_same_node() {
    let mut node = DHT::new(1);
    assert_eq!(send(&mut node, "SET foo 42"), "OK (from node 1)\n");
    assert_eq!(send(&mut node, "GET foo"), "42 (from node 1)\n");
}

#[test]
fn set_overwrites_earlier_value() {
    let mut node = DHT::new(0);
    assert_eq!(send(&mut node, "SET k 1"), "OK (from node 0)\n");
    assert_eq!(send(&mut node, "SET k -7"), "OK (from node 0)\n");
    assert_eq!(send(&mut node, "GET k"), "-7 (from node 0)\n");
    assert_eq!(node.len(), 1);
}

#[test]
fn delete_then_get_is_key_not_found() {
    let mut node = DHT::new(2);
    assert_eq!(send(&mut node, "SET k 5"), "OK (from node 2)\n");
    assert_eq!(send(&mut node, "DEL k"), "OK (from node 2)\n");
    assert_eq!(send(&mut node, "GET k"), "ERROR: Key not found\n");
    assert_eq!(node.len(), 0);
}

#[test]
fn delete_of_absent_key_fails_every_time() {
    let mut node = DHT::new(0);
    assert_eq!(send(&mut node, "DEL ghost"), "ERROR: Key not found\n");
    assert_eq!(send(&mut node, "DEL ghost"), "ERROR: Key not found\n");
    assert_eq!(send(&mut node, "DEL ghost"), "ERROR: Key not found\n");
}

#[test]
fn get_of_absent_key_is_key_not_found() {
    let mut node = DHT::new(0);
    assert_eq!(node.handle_request(b"GET nothing"), Reply::KeyNotFound);
}

#[test]
fn malformed_set_commands() {
    let mut node = DHT::new(0);
    assert_eq!(send(&mut node, "SET onlykey"), "ERROR: Invalid SET command\n");
    assert_eq!(send(&mut node, "SET k notanumber"), "ERROR: Invalid SET command\n");
    assert_eq!(send(&mut node, "SET k 1 2"), "ERROR: Invalid SET command\n");
    assert_eq!(send(&mut node, "SET k 2147483648"), "ERROR: Invalid SET command\n");
    assert_eq!(send(&mut node, "SET k "), "ERROR: Invalid SET command\n");
    assert_eq!(node.len(), 0);
}

#[test]
fn malformed_get_and_del_commands() {
    let mut node = DHT::new(0);
    assert_eq!(send(&mut node, "GET"), "ERROR: Invalid GET command\n");
    assert_eq!(send(&mut node, "GET a b"), "ERROR: Invalid GET command\n");
    assert_eq!(send(&mut node, "DEL"), "ERROR: Invalid DEL command\n");
    assert_eq!(send(&mut node, "DEL a b"), "ERROR: Invalid DEL command\n");
}

#[test]
fn unknown_command_is_invalid() {
    let mut node = DHT::new(0);
    assert_eq!(send(&mut node, "FOO k"), "ERROR: Invalid command\n");
    assert_eq!(send(&mut node, "set k 1"), "ERROR: Invalid command\n");
    assert_eq!(send(&mut node, ""), "ERROR: Invalid command\n");
}

#[test]
fn nul_padding_and_newline_are_stripped() {
    let mut node = DHT::new(1);
    let mut buffer = [0u8; 1024];
    let text = b"SET padded 9";
    buffer[..text.len()].copy_from_slice(text);
    assert_eq!(node.handle_request(&buffer), Reply::Done { node: 1 });
    assert_eq!(node.handle_request(b"GET padded\n"), Reply::Value { value: 9, node: 1 });
    assert_eq!(node.lookup(b"padded"), Some(9));
}

#[test]
fn distinct_keys_all_kept() {
    let mut node = DHT::new(0);
    for i in 0..50 {
        let line = format!("SET key_{} {}", i, i * 3);
        assert_eq!(send(&mut node, &line), "OK (from node 0)\n");
    }
    for i in 0..50 {
        let line = format!("GET key_{}", i);
        assert_eq!(send(&mut node, &line), format!("{} (from node 0)\n", i * 3));
    }
    assert_eq!(node.len(), 50);
}

#[test]
fn reply_lines() {
    assert_eq!(Reply::Done { node: 12 }.to_line(), "OK (from node 12)\n");
    assert_eq!(Reply::Value { value: -2147483648, node: 0 }.to_line(), "-2147483648 (from node 0)\n");
    assert_eq!(Reply::Value { value: 2147483647, node: 3 }.to_line(), "2147483647 (from node 3)\n");
    assert_eq!(Reply::Value { value: 0, node: 10 }.to_line(), "0 (from node 10)\n");
    assert_eq!(Reply::KeyNotFound.to_line(), "ERROR: Key not found\n");
    assert_eq!(Reply::InvalidSet.to_line(), "ERROR: Invalid SET command\n");
    assert_eq!(Reply::InvalidGet.to_line(), "ERROR: Invalid GET command\n");
    assert_eq!(Reply::InvalidDel.to_line(), "ERROR: Invalid DEL command\n");
    assert_eq!(Reply::InvalidCommand.to_line(), "ERROR: Invalid command\n");
}

#[test]
fn parse_request_forms() {
    match parse_request(b"SET a -3") {
        Ok(Request::Store { key, value }) => {
            assert_eq!(key, b"a".to_vec());
            assert_eq!(value, -3);
        }
        _ => panic!("expected a store"),
    }
    match parse_request(b"DEL a") {
        Ok(Request::Delete { key }) => assert_eq!(key, b"a".to_vec()),
        _ => panic!("expected a delete"),
    }
    assert!(matches!(parse_request(b"SET a x"), Err(Reply::InvalidSet)));
}

#[test]
fn integer_parsing() {
    assert_eq!(parse_i32(b"42"), Some(42));
    assert_eq!(parse_i32(b"+42"), Some(42));
    assert_eq!(parse_i32(b"-0"), Some(0));
    assert_eq!(parse_i32(b"007"), Some(7));
    assert_eq!(parse_i32(b"2147483647"), Some(2147483647));
    assert_eq!(parse_i32(b"-2147483648"), Some(-2147483648));
    assert_eq!(parse_i32(b"2147483648"), None);
    assert_eq!(parse_i32(b"-2147483649"), None);
    assert_eq!(parse_i32(b"99999999999x"), None);
    assert_eq!(parse_i32(b""), None);
    assert_eq!(parse_i32(b"-"), None);
    assert_eq!(parse_i32(b"+"), None);
    assert_eq!(parse_i32(b"1a"), None);
    assert_eq!(parse_i32(b" 1"), None);
}

#[test]
fn request_line_trims() {
    assert_eq!(request_line(b"\0\0GET x\0\0"), b"GET x".to_vec());
    assert_eq!(request_line(b"GET x\nGET y"), b"GET x".to_vec());
    assert_eq!(request_line(b"\0\0\0"), Vec::<u8>::new());
    assert_eq!(request_line(b""), Vec::<u8>::new());
}

#[test]
fn split_keeps_empty_tokens() {
    let parts = split_bytes(b"a  b", b' ');
    assert_eq!(parts, vec![b"a".to_vec(), Vec::new(), b"b".to_vec()]);
    assert_eq!(split_bytes(b"", b' '), vec![Vec::<u8>::new()]);
}
