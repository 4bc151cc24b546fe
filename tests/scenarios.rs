use redis_server::command::Command;
use redis_server::engine::StorageEngine;
use redis_server::protocol::RespObject;
use redis_server::protocol::RespObject::{
    Array, BulkString, Error, Integer, NullArray, NullBulkString, SimpleString,
};

const SECOND: u128 = 1_000_000_000;

fn request(words: &[&str]) -> RespObject {
    Array(words.iter().map(|w| BulkString(w.to_string())).collect())
}

fn run(engine: &mut StorageEngine, words: &[&str], now: u128) -> RespObject {
    // goes through the wire bytes, as a client's request would
    let bytes = request(words).serialize();
    let parsed = RespObject::parse(&bytes).unwrap();
    match Command::from(parsed) {
        Ok(cmd) => cmd.execute_at(engine, now),
        Err(e) => Error(e),
    }
}

fn error_of(words: &[&str]) -> String {
    Command::from(request(words)).unwrap_err()
}

#[test]
fn get_on_unset_key_is_null() {
    let mut engine = StorageEngine::new();
    assert_eq!(run(&mut engine, &["GET", "nothing"], 0), NullBulkString);
}

#[test]
fn set_then_get_returns_the_value() {
    let mut engine = StorageEngine::new();
    assert_eq!(run(&mut engine, &["SET", "k", "v"], 0), SimpleString("OK".to_owned()));
    assert_eq!(run(&mut engine, &["GET", "k"], 5 * SECOND), BulkString("v".to_owned()));
}

#[test]
fn set_with_expiry_is_read_until_it_lapses() {
    let mut engine = StorageEngine::new();
    let t0: u128 = 1_700_000_000 * SECOND;
    assert_eq!(run(&mut engine, &["SET", "k", "v", "EX", "10"], t0), SimpleString("OK".to_owned()));
    assert_eq!(run(&mut engine, &["GET", "k"], t0 + SECOND), BulkString("v".to_owned()));
    assert_eq!(run(&mut engine, &["GET", "k"], t0 + 8 * SECOND), BulkString("v".to_owned()));
    assert_eq!(run(&mut engine, &["TTL", "k"], t0 + 8 * SECOND), Integer(2));
    assert_eq!(run(&mut engine, &["GET", "k"], t0 + 11 * SECOND), NullBulkString);
    assert_eq!(run(&mut engine, &["TTL", "k"], t0 + 11 * SECOND), Integer(-2));
}

#[test]
fn mset_sets_every_pair_and_the_last_write_wins() {
    let mut engine = StorageEngine::new();
    assert_eq!(run(&mut engine, &["MSET", "a", "1", "b", "2"], 0), SimpleString("OK".to_owned()));
    assert_eq!(run(&mut engine, &["GET", "a"], 0), BulkString("1".to_owned()));
    assert_eq!(run(&mut engine, &["GET", "b"], 0), BulkString("2".to_owned()));
    assert_eq!(run(&mut engine, &["MSET", "k", "v1", "k", "v2"], 0), SimpleString("OK".to_owned()));
    assert_eq!(run(&mut engine, &["GET", "k"], 0), BulkString("v2".to_owned()));
}

#[test]
fn del_counts_removed_keys_and_they_are_gone() {
    let mut engine = StorageEngine::new();
    run(&mut engine, &["MSET", "k1", "v1", "k2", "v2"], 0);
    assert_eq!(run(&mut engine, &["DEL", "k1", "k2", "k3"], 0), Integer(2));
    assert_eq!(run(&mut engine, &["MGET", "k1", "k2"], 0), Array(vec![NullBulkString, NullBulkString]));
}

#[test]
fn del_of_a_repeated_key_counts_it_once() {
    let mut engine = StorageEngine::new();
    run(&mut engine, &["SET", "k", "v"], 0);
    assert_eq!(run(&mut engine, &["DEL", "k", "k"], 0), Integer(1));
}

#[test]
fn exists_counts_present_keys() {
    let mut engine = StorageEngine::new();
    run(&mut engine, &["MSET", "k1", "v1", "k2", "v2"], 0);
    assert_eq!(run(&mut engine, &["EXISTS", "k1", "k2", "k3"], 0), Integer(2));
}

#[test]
fn exists_counts_each_occurrence_of_a_key() {
    let mut engine = StorageEngine::new();
    run(&mut engine, &["SET", "k1", "v1"], 0);
    assert_eq!(run(&mut engine, &["EXISTS", "k1", "k1", "k9"], 0), Integer(2));
}

#[test]
fn mget_keeps_request_order() {
    let mut engine = StorageEngine::new();
    run(&mut engine, &["SET", "a", "a-val"], 0);
    run(&mut engine, &["SET", "b", "b-val"], 0);
    assert_eq!(
        run(&mut engine, &["MGET", "a", "b", "c"], 0),
        Array(vec![BulkString("a-val".to_owned()), BulkString("b-val".to_owned()), NullBulkString])
    );
    assert_eq!(
        run(&mut engine, &["MGET", "c", "b", "a"], 0),
        Array(vec![NullBulkString, BulkString("b-val".to_owned()), BulkString("a-val".to_owned())])
    );
}

#[test]
fn unknown_command_is_named_in_the_error() {
    let mut engine = StorageEngine::new();
    assert_eq!(
        run(&mut engine, &["whubalubadubdub"], 0),
        Error("unknown command 'whubalubadubdub'".to_owned())
    );
}

#[test]
fn unknown_command_is_named_lower_cased() {
    assert_eq!(error_of(&["FLUSHALL"]), "unknown command 'flushall'");
}

#[test]
fn multi_key_commands_without_arguments_are_refused() {
    assert_eq!(error_of(&["MSET"]), "Wrong number of arguments for 'mset' command");
    assert_eq!(error_of(&["MGET"]), "Wrong number of arguments for 'mget' command");
    assert_eq!(error_of(&["DEL"]), "Wrong number of arguments for 'del' command");
    assert_eq!(error_of(&["EXISTS"]), "Wrong number of arguments for 'exists' command");
}

#[test]
fn arity_errors_of_single_key_commands() {
    assert_eq!(error_of(&["PING", "x"]), "Wrong number of arguments for 'ping' command");
    assert_eq!(error_of(&["ECHO"]), "Not enough arguments for 'echo'");
    assert_eq!(error_of(&["ECHO", "a", "b"]), "Wrong number of arguments for 'echo' command");
    assert_eq!(error_of(&["GET"]), "Not enough arguments for 'get'");
    assert_eq!(error_of(&["GET", "a", "b"]), "Wrong number of arguments for 'get' command");
    assert_eq!(error_of(&["TTL"]), "Not enough arguments for 'ttl'");
    assert_eq!(error_of(&["TTL", "a", "b"]), "Wrong number of arguments for 'ttl' command");
    assert_eq!(error_of(&["MSET", "a", "1", "b"]), "Not enough arguments for 'mset'");
}

#[test]
fn set_argument_errors() {
    assert_eq!(error_of(&["SET", "k"]), "Wrong number of arguments for command");
    assert_eq!(error_of(&["SET", "k", "v", "PX", "10"]), "Wrong number of arguments for command");
    assert_eq!(error_of(&["SET", "k", "v", "EX"]), "Wrong number of arguments for command");
    assert_eq!(error_of(&["SET", "k", "v", "EX", "ten"]), "value is not an integer or out of range");
    assert_eq!(error_of(&["SET", "k", "v", "EX", "-1"]), "value is not an integer or out of range");
    assert_eq!(
        error_of(&["SET", "k", "v", "EX", "18446744073709551616"]),
        "value is not an integer or out of range"
    );
}

#[test]
fn set_option_is_matched_case_aside_and_the_last_wins() {
    let mut engine = StorageEngine::new();
    run(&mut engine, &["set", "k", "v", "eX", "5", "Ex", "+100"], 0);
    assert_eq!(run(&mut engine, &["TTL", "k"], 0), Integer(100));
}

#[test]
fn request_shape_errors() {
    assert_eq!(Command::from(Array(vec![])).unwrap_err(), "Wrong number of arguments for command");
    assert_eq!(Command::from(NullArray).unwrap_err(), "An Array of BulkStrings is expected");
    assert_eq!(
        Command::from(Array(vec![BulkString("GET".to_owned()), NullBulkString])).unwrap_err(),
        "Array should only contain BulkStrings"
    );
}

#[test]
fn ttl_reports_missing_permanent_and_remaining() {
    let mut engine = StorageEngine::new();
    assert_eq!(run(&mut engine, &["TTL", "k"], 0), Integer(-2));
    run(&mut engine, &["SET", "k", "v"], 0);
    assert_eq!(run(&mut engine, &["TTL", "k"], 0), Integer(-1));
    run(&mut engine, &["SET", "k", "v", "EX", "3600"], 0);
    assert_eq!(run(&mut engine, &["TTL", "k"], 600 * SECOND), Integer(3000));
}

#[test]
fn echo_and_ping_replies() {
    let mut engine = StorageEngine::new();
    assert_eq!(run(&mut engine, &["ping"], 0), SimpleString("PONG".to_owned()));
    assert_eq!(run(&mut engine, &["Echo", "héllo"], 0), SimpleString("héllo".to_owned()));
}

#[test]
fn execute_on_reads_the_clock() {
    let mut engine = StorageEngine::new();
    let set = Command::from(request(&["SET", "k", "v", "EX", "1000"])).unwrap();
    assert_eq!(set.execute_on(&mut engine), SimpleString("OK".to_owned()));
    let get = Command::from(request(&["GET", "k"])).unwrap();
    assert_eq!(get.execute_on(&mut engine), BulkString("v".to_owned()));
    let ttl = Command::from(request(&["TTL", "k"])).unwrap();
    match ttl.execute_on(&mut engine) {
        Integer(n) => assert!(n >= 998 && n <= 1000),
        other => panic!("unexpected reply {:?}", other),
    }
}

#[test]
fn from_bytes_reports_codec_and_interpreter_errors() {
    assert_eq!(
        Command::from_bytes(b"?x\r\n").unwrap_err(),
        "Unexpected RESP type character: '?'"
    );
    assert_eq!(
        Command::from_bytes(b"+PING\r\n").unwrap_err(),
        "An Array of BulkStrings is expected"
    );
    assert_eq!(
        Command::from_bytes(b"*1\r\n$4\r\nPiNg\r\n"),
        Ok(Command(redis_server::command::RespCommand::Ping))
    );
}
