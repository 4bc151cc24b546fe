use redis_server::engine::{StorageEngine, TimeToLive};

const SECOND: u128 = 1_000_000_000;

#[test]
fn get_should_return_nil_when_unset() {
    let mut engine = StorageEngine::new();

    let result = engine.get("foo").unwrap();
    assert_eq!(result, None)
}

#[test]
fn get_should_return_the_previously_set_value_when_no_ttl_is_defined() {
    let mut engine = StorageEngine::new();

    engine.set(String::from("foo"), String::from("bar"), None).unwrap();

    let result = engine.get("foo").unwrap();
    assert_eq!(result, Some("bar".to_owned()));
}

#[test]
fn get_should_return_the_previously_set_value_or_not_based_on_whether_ttl_is_expired() {
    let mut engine = StorageEngine::new();
    let start: u128 = 1_700_000_000 * SECOND;

    // set the value with ttl=10s
    engine.set_at(String::from("foo"), String::from("bar"), Some(10), start).unwrap();

    // fetch the value after 1s
    let result = engine.get_at("foo", start + SECOND).unwrap();
    assert_eq!(result, Some("bar".to_owned()));

    // fetch the value after 7s more (8s total)
    let result = engine.get_at("foo", start + 8 * SECOND).unwrap();
    assert_eq!(result, Some("bar".to_owned()));

    // fetch the value after 7s more (15s total) -> TTL expired
    let result = engine.get_at("foo", start + 15 * SECOND).unwrap();
    assert_eq!(result, None);
}

#[test]
fn remove_should_remove_and_indicate_if_something_was_removed_or_not() {
    let mut engine = StorageEngine::new();

    engine.set(String::from("foo"), String::from("bar"), None).unwrap();

    let result = engine.remove("foo");
    assert_eq!(result, true);

    // since the value was removed, it can no longer be found
    let result = engine.get("foo").unwrap();
    assert_eq!(result, None);

    // a new 'remove' will now not remove anything
    let result = engine.remove("foo");
    assert_eq!(result, false);
}

#[test]
fn exists_should_tell_whether_an_entry_exists_for_key() {
    let mut engine = StorageEngine::new();

    let key = String::from("foo");

    // initially doesn't exist
    assert_eq!(engine.key_exists(&key), false);

    // after setting, exists
    engine.set(key.clone(), String::from("bar"), None).unwrap();

    assert_eq!(engine.key_exists(&key), true);
}

#[test]
fn expiry_is_exclusive_of_the_instant_itself() {
    let mut engine = StorageEngine::new();
    let start: u128 = 50 * SECOND;
    engine.set_at(String::from("k"), String::from("v"), Some(10), start).unwrap();
    assert_eq!(engine.get_at("k", start + 10 * SECOND).unwrap(), Some("v".to_owned()));
    assert_eq!(engine.get_at("k", start + 10 * SECOND + 1).unwrap(), None);
    // the read evicted it
    assert_eq!(engine.key_exists("k"), false);
}

#[test]
fn key_exists_reports_an_expired_entry_not_yet_evicted() {
    let mut engine = StorageEngine::new();
    engine.set_at(String::from("k"), String::from("v"), Some(1), 0).unwrap();
    // no read has touched it, so the raw presence check still sees it
    assert_eq!(engine.key_exists("k"), true);
    assert_eq!(engine.time_to_live_at("k", 5 * SECOND), TimeToLive::KeyDoesNotExist);
    assert_eq!(engine.key_exists("k"), false);
}

#[test]
fn time_to_live_counts_whole_seconds_until_expiry() {
    let mut engine = StorageEngine::new();
    let start: u128 = 1_000 * SECOND;
    assert_eq!(engine.time_to_live_at("k", start), TimeToLive::KeyDoesNotExist);
    engine.set_at(String::from("k"), String::from("v"), None, start).unwrap();
    assert_eq!(engine.time_to_live_at("k", start), TimeToLive::DoesNotExpire);
    engine.set_at(String::from("k"), String::from("v"), Some(10), start).unwrap();
    assert_eq!(engine.time_to_live_at("k", start), TimeToLive::ExpiresInSeconds(10));
    assert_eq!(engine.time_to_live_at("k", start + 2 * SECOND + 1), TimeToLive::ExpiresInSeconds(7));
}

#[test]
fn set_replaces_value_and_expiry() {
    let mut engine = StorageEngine::new();
    engine.set_at(String::from("k"), String::from("a"), Some(1), 0).unwrap();
    engine.set_at(String::from("k"), String::from("b"), None, 0).unwrap();
    assert_eq!(engine.get_at("k", 100 * SECOND).unwrap(), Some("b".to_owned()));
}

#[test]
fn expiry_past_the_largest_instant_is_held_there() {
    let mut engine = StorageEngine::new();
    engine.set_at(String::from("k"), String::from("v"), Some(u64::MAX), u128::MAX - 5).unwrap();
    assert_eq!(engine.get_at("k", u128::MAX).unwrap(), Some("v".to_owned()));
}
