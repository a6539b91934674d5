use redis_starter_rust::command::resp::Resp;
use redis_starter_rust::command::Command;
use redis_starter_rust::store::Store;
use redis_starter_rust::{handle_command, handle_ping};

fn bulk(s: &str) -> Resp {
    Resp::BulkString(s.to_string())
}

fn array_of(parts: &[&str]) -> Resp {
    Resp::Array(parts.iter().map(|p| bulk(p)).collect())
}

fn run(store: &mut Store, parts: &[&str], now_ms: u64) -> String {
    let command = Command::try_from(array_of(parts)).unwrap();
    handle_command(store, command, now_ms).encode()
}

#[test]
fn ping_pongs() {
    let mut store = Store::new();
    assert_eq!(run(&mut store, &["PING"], 0), "+PONG\r\n");
    assert_eq!(handle_ping().encode(), "+PONG\r\n");
}

#[test]
fn echo_replies_with_bulk_string() {
    let mut store = Store::new();
    assert_eq!(run(&mut store, &["ECHO", "hey"], 0), "$3\r\nhey\r\n");
}

#[test]
fn set_then_get_over_the_wire() {
    let mut store = Store::new();
    assert_eq!(run(&mut store, &["SET", "k", "v"], 0), "+OK\r\n");
    assert_eq!(run(&mut store, &["GET", "k"], 1), "$1\r\nv\r\n");
}

#[test]
fn get_of_absent_key_is_null() {
    let mut store = Store::new();
    assert_eq!(run(&mut store, &["GET", "nope"], 0), "$-1\r\n");
}

#[test]
fn set_with_px_expires() {
    let mut store = Store::new();
    assert_eq!(run(&mut store, &["SET", "k", "v", "PX", "100"], 0), "+OK\r\n");
    assert_eq!(run(&mut store, &["GET", "k"], 100), "$1\r\nv\r\n");
    assert_eq!(run(&mut store, &["GET", "k"], 101), "$-1\r\n");
}

#[test]
fn config_get_configured_dir() {
    let mut store = Store::new();
    store.set_rdb_dir("/data".to_string());
    assert_eq!(
        run(&mut store, &["CONFIG", "GET", "dir"], 0),
        "*2\r\n$3\r\ndir\r\n$5\r\n/data\r\n"
    );
}

#[test]
fn config_get_unconfigured_dir_is_null() {
    let mut store = Store::new();
    assert_eq!(
        run(&mut store, &["CONFIG", "GET", "dir"], 0),
        "*2\r\n$3\r\ndir\r\n$-1\r\n"
    );
}
