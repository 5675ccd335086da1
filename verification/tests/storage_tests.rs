use respkv::resp::RESP;
use respkv::set::{parse_set_arguments, KeyExpiry, SetArgs};
use respkv::clock::{deadline_of, Timestamp};
use respkv::storage::{Storage, StorageData, StorageValue};
use respkv::storage_result::StorageError;
use std::time::{SystemTime, UNIX_EPOCH};

const SECOND: Timestamp = 1_000_000_000;
const MILLISECOND: Timestamp = 1_000_000;

fn clock() -> Timestamp {
    SystemTime::now().duration_since(UNIX_EPOCH).unwrap().as_nanos()
}

fn words(tokens: &[&str]) -> Vec<String> {
    tokens.iter().map(|token| String::from(*token)).collect()
}

fn expiring(expiry: KeyExpiry) -> SetArgs {
    SetArgs { expiry: Some(expiry), existence: None, get: false }
}

#[test]
fn test_create_new() {
    let storage: Storage = Storage::new();
    assert_eq!(storage.len(), 0);
    assert_eq!(storage.expiry_len(), 0);
    assert_eq!(storage.expires_at("some_key"), None);
    assert!(storage.active_expiry());
}

#[test]
fn test_command_ping() {
    let command = vec![String::from("ping")];
    let storage: Storage = Storage::new();
    let output = storage.command_ping(&command).unwrap();
    assert_eq!(output, RESP::SimpleString(String::from("PONG")));
}

#[test]
fn test_command_ping_uppercase() {
    let command = vec![String::from("PING")];
    let storage: Storage = Storage::new();
    let output = storage.command_ping(&command).unwrap();
    assert_eq!(output, RESP::SimpleString(String::from("PONG")));
}

#[test]
fn test_command_echo() {
    let command = vec![String::from("echo"), String::from("Hello, World!")];
    let storage: Storage = Storage::new();
    let output = storage.command_echo(&command).unwrap();
    assert_eq!(output, RESP::BulkString(String::from("Hello, World!")));
}

#[test]
fn test_set_value() {
    let mut storage = Storage::new();
    let some_value = StorageData::from(String::from("some_value"));
    let output = storage
        .set(
            String::from("some_key"),
            String::from("some_value"),
            SetArgs::new(),
        )
        .unwrap();
    assert_eq!(output, String::from("OK"));
    assert_eq!(storage.len(), 1);
    match storage.entry("some_key") {
        Some(value) => assert_eq!(value, &some_value),
        None => panic!("Value not found in storage"),
    }
}

#[test]
fn test_get_value() {
    let mut storage = Storage::new();
    storage
        .set(
            String::from("some_key"),
            String::from("some_value"),
            SetArgs::new(),
        )
        .unwrap();
    let result = storage.get(String::from("some_key")).unwrap();
    assert_eq!(storage.len(), 1);
    assert_eq!(result, Some(String::from("some_value")));
}

#[test]
fn test_get_value_key_does_not_exist() {
    let mut storage = Storage::new();
    let result = storage.get(String::from("null_key")).unwrap();
    assert_eq!(storage.len(), 0);
    assert_eq!(result, None);
}

#[test]
fn test_process_command_set() {
    let mut storage: Storage = Storage::new();
    let command = vec![
        String::from("set"),
        String::from("key"),
        String::from("value"),
    ];
    let output = storage.process_command(&command).unwrap();
    assert_eq!(output, RESP::SimpleString(String::from("OK")));
    assert_eq!(storage.len(), 1);
}

#[test]
fn test_process_command_get() {
    let mut storage: Storage = Storage::new();
    storage
        .set(String::from("akey"), String::from("avalue"), SetArgs::new())
        .unwrap();
    let command = vec![String::from("get"), String::from("akey")];
    let output = storage.process_command(&command).unwrap();
    assert_eq!(output, RESP::BulkString(String::from("avalue")));
    assert_eq!(storage.len(), 1);
}

#[test]
fn test_expire_keys() {
    let mut storage: Storage = Storage::new();
    storage
        .set_at(
            String::from("some_key"),
            String::from("some_value"),
            expiring(KeyExpiry::EX(1)),
            clock() - 6 * SECOND,
        )
        .unwrap();
    assert_eq!(storage.len(), 1);
    storage.expire_keys();
    assert_eq!(storage.len(), 0);
}

#[test]
fn test_expire_keys_deactivated() {
    let mut storage = Storage::new();
    storage.set_active_expiry(false);
    storage
        .set_at(
            String::from("some_key"),
            String::from("some_value"),
            expiring(KeyExpiry::EX(1)),
            clock() - 6 * SECOND,
        )
        .unwrap();
    storage.expire_keys();
    assert_eq!(storage.len(), 1);
}

#[test]
fn test_set_value_with_px() {
    let mut storage = Storage::new();
    let now = clock();
    let mut some_value = StorageData::from(String::from("some_value"));
    some_value.add_expiry(now + 100 * MILLISECOND);

    let output = storage
        .set_at(
            String::from("some_key"),
            String::from("some_value"),
            SetArgs {
                expiry: Some(KeyExpiry::PX(100)),
                existence: None,
                get: false,
            },
            now,
        )
        .unwrap();

    assert_eq!(output, String::from("OK"));
    assert_eq!(storage.len(), 1);
    match storage.entry("some_key") {
        Some(value) => {
            assert_eq!(value, &some_value);
        }
        None => panic!("Value not found in storage"),
    }
    storage.expires_at("some_key").unwrap();
}

#[test]
fn test_deadline_formulas() {
    assert_eq!(deadline_of(5, KeyExpiry::EX(3)), 3_000_000_005);
    assert_eq!(deadline_of(5, KeyExpiry::PX(3)), 3_000_005);
    assert_eq!(deadline_of(7, KeyExpiry::EX(0)), 7);
    assert_eq!(
        deadline_of(1, KeyExpiry::EX(u64::MAX)),
        18_446_744_073_709_551_615_000_000_001
    );
    assert_eq!(deadline_of(u128::MAX - 10, KeyExpiry::PX(1)), u128::MAX);
    assert_eq!(deadline_of(u128::MAX - 1_000_000, KeyExpiry::PX(1)), u128::MAX);
    assert_eq!(deadline_of(u128::MAX - 1_000_001, KeyExpiry::PX(1)), u128::MAX - 1);
}

#[test]
fn test_storage_data_equality_ignores_the_time_of_writing() {
    let early = StorageData::new(String::from("v"), 1);
    let late = StorageData::new(String::from("v"), 2);
    assert_eq!(early, late);
    assert_ne!(early, StorageData::new(String::from("w"), 1));
    let mut expiring = StorageData::new(String::from("v"), 1);
    expiring.add_expiry(9);
    assert_ne!(early, expiring);
    assert_eq!(expiring.expiry, Some(9));
    assert_eq!(expiring.created_at, 1);
    assert_eq!(expiring.value, StorageValue::String(String::from("v")));
}

#[test]
fn test_expiry_with_px() {
    let mut storage = Storage::new();
    let t0: Timestamp = 1_000 * SECOND;
    let key = || String::from("k");
    storage.set_at(key(), String::from("v"), expiring(KeyExpiry::PX(100)), t0).unwrap();
    assert_eq!(storage.expires_at("k"), Some(t0 + 100 * MILLISECOND));
    assert_eq!(storage.entry("k").unwrap().expiry, Some(t0 + 100 * MILLISECOND));
    assert_eq!(storage.entry("k").unwrap().created_at, t0);
    assert_eq!(storage.get_at(key(), t0), Ok(Some(String::from("v"))));
    assert_eq!(storage.get_at(key(), t0 + 100 * MILLISECOND - 1), Ok(Some(String::from("v"))));
    assert_eq!((storage.len(), storage.expiry_len()), (1, 1));
    assert_eq!(storage.get_at(key(), t0 + 100 * MILLISECOND), Ok(None));
    assert_eq!((storage.len(), storage.expiry_len()), (0, 0));
    assert!(storage.entry("k").is_none());
    assert_eq!(storage.expires_at("k"), None);
    assert_eq!(storage.get_at(key(), t0), Ok(None));
}

#[test]
fn test_expiry_with_ex() {
    let mut storage = Storage::new();
    let t0: Timestamp = 50;
    storage.set_at(String::from("k"), String::from("v"), expiring(KeyExpiry::EX(2)), t0).unwrap();
    assert_eq!(storage.expires_at("k"), Some(t0 + 2 * SECOND));
    assert_eq!(storage.get_at(String::from("k"), t0 + 2 * SECOND - 1), Ok(Some(String::from("v"))));
    assert_eq!(storage.get_at(String::from("k"), t0 + 3 * SECOND), Ok(None));
}

#[test]
fn test_lazy_expiry_does_not_wait_for_the_sweep() {
    let mut storage = Storage::new();
    storage.set_active_expiry(false);
    storage.set_at(String::from("k"), String::from("v"), expiring(KeyExpiry::PX(1)), 0).unwrap();
    storage.expire_keys_at(10 * SECOND);
    assert_eq!((storage.len(), storage.expiry_len()), (1, 1));
    assert!(storage.entry("k").is_some());
    assert_eq!(storage.get_at(String::from("k"), 10 * SECOND), Ok(None));
    assert_eq!((storage.len(), storage.expiry_len()), (0, 0));
}

#[test]
fn test_sweep_removes_what_is_due_and_keeps_the_rest() {
    let mut storage = Storage::new();
    for (key, millis) in [("a", 10u64), ("b", 20), ("c", 30), ("d", 40), ("e", 20)] {
        let args = expiring(KeyExpiry::PX(millis));
        storage.set_at(String::from(key), String::from(key), args, 0).unwrap();
    }
    storage.set_at(String::from("forever"), String::from("x"), SetArgs::new(), 0).unwrap();
    assert_eq!((storage.len(), storage.expiry_len()), (6, 5));
    storage.expire_keys_at(20 * MILLISECOND);
    assert_eq!((storage.len(), storage.expiry_len()), (3, 2));
    for gone in ["a", "b", "e"] {
        assert!(storage.entry(gone).is_none());
        assert_eq!(storage.expires_at(gone), None);
    }
    assert_eq!(storage.expires_at("c"), Some(30 * MILLISECOND));
    assert_eq!(storage.expires_at("d"), Some(40 * MILLISECOND));
    assert!(storage.entry("forever").is_some());
    storage.expire_keys_at(20 * MILLISECOND);
    assert_eq!((storage.len(), storage.expiry_len()), (3, 2));
    storage.expire_keys_at(u128::MAX);
    assert_eq!((storage.len(), storage.expiry_len()), (1, 0));
    assert_eq!(storage.get_at(String::from("forever"), u128::MAX), Ok(Some(String::from("x"))));
}

#[test]
fn test_sweep_before_anything_is_due() {
    let mut storage = Storage::new();
    storage.set_at(String::from("k"), String::from("v"), expiring(KeyExpiry::EX(1)), 5).unwrap();
    storage.expire_keys_at(SECOND + 4);
    assert_eq!((storage.len(), storage.expiry_len()), (1, 1));
    storage.expire_keys_at(SECOND + 5);
    assert_eq!((storage.len(), storage.expiry_len()), (0, 0));
}

#[test]
fn test_sweep_can_be_switched_on_again() {
    let mut storage = Storage::new();
    storage.set_active_expiry(false);
    assert!(!storage.active_expiry());
    storage.set_at(String::from("k"), String::from("v"), expiring(KeyExpiry::PX(1)), 0).unwrap();
    storage.expire_keys_at(SECOND);
    assert_eq!(storage.len(), 1);
    storage.set_active_expiry(true);
    storage.expire_keys_at(SECOND);
    assert_eq!(storage.len(), 0);
}

#[test]
fn test_set_overwrites_value_and_expiry() {
    let mut storage = Storage::new();
    let key = || String::from("k");
    storage.set_at(key(), String::from("one"), expiring(KeyExpiry::PX(5)), 0).unwrap();
    storage.set_at(key(), String::from("two"), expiring(KeyExpiry::EX(5)), 1).unwrap();
    assert_eq!((storage.len(), storage.expiry_len()), (1, 1));
    assert_eq!(storage.expires_at("k"), Some(5 * SECOND + 1));
    assert_eq!(storage.get_at(key(), SECOND), Ok(Some(String::from("two"))));
    storage.set_at(key(), String::from("three"), SetArgs::new(), 2).unwrap();
    assert_eq!((storage.len(), storage.expiry_len()), (1, 0));
    assert_eq!(storage.entry("k").unwrap().expiry, None);
    storage.expire_keys_at(u128::MAX);
    assert_eq!(storage.get_at(key(), u128::MAX), Ok(Some(String::from("three"))));
}

#[test]
fn test_keys_are_taken_as_they_are() {
    let mut storage = Storage::new();
    storage.set_at(String::from("Key"), String::from("upper"), SetArgs::new(), 0).unwrap();
    storage.set_at(String::from("key"), String::from("lower"), SetArgs::new(), 0).unwrap();
    storage.set_at(String::new(), String::from("empty"), SetArgs::new(), 0).unwrap();
    assert_eq!(storage.len(), 3);
    assert_eq!(storage.get_at(String::from("Key"), 0), Ok(Some(String::from("upper"))));
    assert_eq!(storage.get_at(String::from("key"), 0), Ok(Some(String::from("lower"))));
    assert_eq!(storage.get_at(String::new(), 0), Ok(Some(String::from("empty"))));
    assert_eq!(storage.get_at(String::from("KEY"), 0), Ok(None));
}

#[test]
fn test_parse_set_arguments() {
    assert_eq!(parse_set_arguments(&words(&[])), Ok(SetArgs::new()));
    assert_eq!(parse_set_arguments(&words(&["EX", "10"])), Ok(expiring(KeyExpiry::EX(10))));
    assert_eq!(parse_set_arguments(&words(&["ex", "0"])), Ok(expiring(KeyExpiry::EX(0))));
    assert_eq!(parse_set_arguments(&words(&["Px", "+250"])), Ok(expiring(KeyExpiry::PX(250))));
    assert_eq!(
        parse_set_arguments(&words(&["pX", "18446744073709551615"])),
        Ok(expiring(KeyExpiry::PX(u64::MAX)))
    );
    assert_eq!(
        SetArgs::new(),
        SetArgs { expiry: None, existence: None, get: false }
    );
}

#[test]
fn test_parse_set_arguments_syntax_errors() {
    let wrong: Vec<Vec<&str>> = vec![
        vec!["EX"],
        vec!["PX"],
        vec!["EX", "-1"],
        vec!["EX", "ten"],
        vec!["EX", ""],
        vec!["EX", "1.5"],
        vec!["EX", "18446744073709551616"],
        vec!["EX", "10", "PX", "10"],
        vec!["EX", "10", "EX", "10"],
        vec!["EX", "10", "extra"],
        vec!["NX"],
        vec!["XX"],
        vec!["GET"],
        vec!["KEEPTTL"],
        vec!["10", "EX"],
        vec!["ÉX", "10"],
        vec!["exx", "10"],
        vec!["", "10"],
    ];
    for tokens in wrong {
        let error = parse_set_arguments(&words(&tokens)).unwrap_err();
        assert_eq!(error, StorageError::CommandSyntaxError(tokens.join(" ")));
    }
}

#[test]
fn test_process_command_names_in_any_case() {
    let mut storage = Storage::new();
    for name in ["ping", "PING", "PiNg"] {
        let output = storage.process_command_at(&words(&[name]), 0);
        assert_eq!(output, Ok(RESP::SimpleString(String::from("PONG"))));
    }
    let output = storage.process_command_at(&words(&["sEt", "k", "v"]), 0);
    assert_eq!(output, Ok(RESP::SimpleString(String::from("OK"))));
    let output = storage.process_command_at(&words(&["GeT", "k"]), 0);
    assert_eq!(output, Ok(RESP::BulkString(String::from("v"))));
    let output = storage.process_command_at(&words(&["Echo", "PING"]), 0);
    assert_eq!(output, Ok(RESP::BulkString(String::from("PING"))));
}

#[test]
fn test_process_command_ping_with_arguments() {
    let mut storage = Storage::new();
    let output = storage.process_command_at(&words(&["PING", "a", "b"]), 0);
    assert_eq!(output, Ok(RESP::SimpleString(String::from("PONG"))));
}

#[test]
fn test_process_command_unknown() {
    let mut storage = Storage::new();
    for name in ["DEL", "pingg", "", "pin", "ＰＩＮＧ", "ge\u{212a}"] {
        let output = storage.process_command_at(&words(&[name, "x"]), 0);
        assert_eq!(output, Err(StorageError::CommandNotAvailable(String::from(name))));
    }
}

#[test]
fn test_process_command_without_tokens() {
    let mut storage = Storage::new();
    assert_eq!(storage.process_command_at(&words(&[]), 0), Err(StorageError::IncorrectRequest));
    assert_eq!(storage.process_command(&words(&[])), Err(StorageError::IncorrectRequest));
}

#[test]
fn test_arity_of_get() {
    let mut storage = Storage::new();
    storage.set_at(String::from("k"), String::from("v"), SetArgs::new(), 0).unwrap();
    for tokens in [vec!["GET"], vec!["GET", "k", "k"], vec!["get", "a", "b", "c"]] {
        let error = storage.process_command_at(&words(&tokens), 0).unwrap_err();
        assert_eq!(error, StorageError::CommandSyntaxError(tokens.join(" ")));
        let error = storage.command_get(&words(&tokens), 0).unwrap_err();
        assert_eq!(error, StorageError::CommandSyntaxError(tokens.join(" ")));
    }
    assert_eq!(storage.len(), 1);
}

#[test]
fn test_arity_of_set() {
    let mut storage = Storage::new();
    for tokens in [vec!["SET"], vec!["SET", "k"]] {
        let error = storage.process_command_at(&words(&tokens), 0).unwrap_err();
        assert_eq!(error, StorageError::CommandSyntaxError(tokens.join(" ")));
        let error = storage.command_set(&words(&tokens), 0).unwrap_err();
        assert_eq!(error, StorageError::CommandSyntaxError(tokens.join(" ")));
    }
    assert_eq!(storage.len(), 0);
}

#[test]
fn test_arity_of_echo() {
    let mut storage = Storage::new();
    for tokens in [vec!["ECHO"], vec!["ECHO", "a", "b"]] {
        let error = storage.process_command_at(&words(&tokens), 0).unwrap_err();
        assert_eq!(error, StorageError::CommandSyntaxError(tokens.join(" ")));
    }
}

#[test]
fn test_set_with_options_through_a_command() {
    let mut storage = Storage::new();
    let t0: Timestamp = 77;
    let output = storage.process_command_at(&words(&["SET", "k", "v", "px", "100"]), t0);
    assert_eq!(output, Ok(RESP::SimpleString(String::from("OK"))));
    assert_eq!(storage.expires_at("k"), Some(t0 + 100 * MILLISECOND));
    let output = storage.process_command_at(&words(&["GET", "k"]), t0 + 99 * MILLISECOND);
    assert_eq!(output, Ok(RESP::BulkString(String::from("v"))));
    let output = storage.process_command_at(&words(&["GET", "k"]), t0 + 100 * MILLISECOND);
    assert_eq!(output, Ok(RESP::Null));
    assert_eq!((storage.len(), storage.expiry_len()), (0, 0));
}

#[test]
fn test_set_with_options_that_are_not_understood() {
    let mut storage = Storage::new();
    storage.set_at(String::from("k"), String::from("old"), SetArgs::new(), 0).unwrap();
    let error = storage.process_command_at(&words(&["SET", "k", "v", "NX"]), 0).unwrap_err();
    assert_eq!(error, StorageError::CommandSyntaxError(String::from("NX")));
    let error =
        storage.process_command_at(&words(&["SET", "k", "v", "EX", "1", "GET"]), 0).unwrap_err();
    assert_eq!(error, StorageError::CommandSyntaxError(String::from("EX 1 GET")));
    assert_eq!(storage.get_at(String::from("k"), 0), Ok(Some(String::from("old"))));
    assert_eq!(storage.expiry_len(), 0);
}

#[test]
fn test_clock_forms_agree_with_the_given_moment() {
    let mut storage = Storage::new();
    let before = clock();
    storage.set(String::from("k"), String::from("v"), expiring(KeyExpiry::EX(3600))).unwrap();
    let after = clock();
    let at = storage.expires_at("k").unwrap();
    assert!(before + 3600 * SECOND <= at && at <= after + 3600 * SECOND);
    let written = storage.entry("k").unwrap().created_at;
    assert!(before <= written && written <= after);
    assert_eq!(storage.get(String::from("k")), Ok(Some(String::from("v"))));
    storage.expire_keys();
    assert_eq!(storage.len(), 1);
    storage.set_at(String::from("past"), String::from("v"), expiring(KeyExpiry::PX(1)), 0).unwrap();
    assert_eq!(storage.get(String::from("past")), Ok(None));
    assert_eq!(storage.len(), 1);
    let made = StorageData::from(String::from("x"));
    assert!(after <= made.created_at && made.created_at <= clock());
}
