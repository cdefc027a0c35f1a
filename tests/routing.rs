use shardkv::router::{ErrorKind, Router};
use shardkv::shard::{shard_of, simple_hash};

fn three_nodes() -> Router {
    Router::new(vec![
        "127.0.0.1:8001".to_string(),
        "127.0.0.1:8002".to_string(),
        "127.0.0.1:8003".to_string(),
    ])
    .unwrap()
}

#[test]
fn shard_of_sums_bytes() {
    assert_eq!(shard_of("", 3), 0);
    assert_eq!(shard_of("a", 3), 97 % 3);
    assert_eq!(shard_of("foo", 3), (102 + 111 + 111) % 3);
    assert_eq!(shard_of("foo", 1000), 324);
    assert_eq!(shard_of("é", 7), (0xc3 + 0xa9) % 7);
    assert_eq!(shard_of("anything", 1), 0);
}

#[test]
fn shard_of_is_deterministic() {
    for key in ["alpha", "beta", "", "key_17"] {
        assert_eq!(shard_of(key, 5), shard_of(key, 5));
        assert_eq!(simple_hash(key), simple_hash(&key.to_string()));
    }
}

#[test]
fn single_letters_cover_three_shards() {
    let mut hit = [false; 3];
    for c in b'a'..=b'z' {
        let key = (c as char).to_string();
        let s = simple_hash(&key);
        assert!(s < 3);
        hit[s] = true;
    }
    assert_eq!(hit, [true, true, true]);
}

#[test]
fn shard_of_large_counts_stay_in_range() {
    let key = "z".repeat(10000);
    assert_eq!(shard_of(&key, usize::MAX), 122 * 10000);
    assert_eq!(shard_of(&key, 7), (122 * 10000) % 7);
}

#[test]
fn router_targets_owner() {
    let router = three_nodes();
    assert_eq!(router.shard_count(), 3);
    assert_eq!(router.target("SET foo 42"), Ok(0));
    assert_eq!(router.target("GET foo"), Ok(0));
    assert_eq!(router.target("DEL a"), Ok(1));
    assert_eq!(router.target("GET b extra"), Ok(2));
    assert_eq!(router.address(1), "127.0.0.1:8002");
}

#[test]
fn router_rejects_without_contacting() {
    let router = three_nodes();
    assert_eq!(router.target("GET"), Err(ErrorKind::InvalidCommand));
    assert_eq!(router.target(""), Err(ErrorKind::InvalidCommand));
    assert_eq!(router.target("FOO k"), Err(ErrorKind::InvalidCommand));
}

#[test]
fn router_needs_a_node() {
    assert!(Router::new(Vec::new()).is_none());
}

#[test]
fn error_messages() {
    assert_eq!(ErrorKind::ConnectFailed.message(), "Cannot connect to server");
    assert_eq!(ErrorKind::InvalidCommand.message(), "Invalid command");
    assert_eq!(ErrorKind::KeyNotFound.message(), "Key not found");
}

#[test]
fn every_command_on_a_key_reaches_its_shard() {
    let router = three_nodes();
    for key in ["foo", "bar", "key_1", "z"] {
        let owner = shard_of(key, 3);
        assert_eq!(router.target(&format!("SET {} 1", key)), Ok(owner));
        assert_eq!(router.target(&format!("GET {}", key)), Ok(owner));
        assert_eq!(router.target(&format!("DEL {}", key)), Ok(owner));
    }
}
