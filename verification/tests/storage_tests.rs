use miniredis::resp::RESP;
use miniredis::set::{KeyExpiry, SetArgs};
use miniredis::storage::{Storage, StorageData};
use miniredis::table::Table;
use std::time::{SystemTime, UNIX_EPOCH};

fn now_ms() -> u64 {
    SystemTime::now()
        .duration_since(UNIX_EPOCH)
        .unwrap()
        .as_millis() as u64
}

#[test]
fn storage_test_create_new() {
    let storage: Storage = Storage::new();
    assert_eq!(storage.store.len(), 0);
    assert_eq!(storage.expiry.len(), 0);
    assert_eq!(storage.expiry, Table::<u64>::new());
    assert!(storage.active_expiry);
}

#[test]
fn storage_test_command_ping() {
    let command = vec![String::from("ping")];
    let storage: Storage = Storage::new();
    let output = storage.command_ping(&command).unwrap();
    assert_eq!(output, RESP::SimpleString(String::from("PONG")));
}

#[test]
fn test_command_echo() {
    let command = vec![String::from("echo"), String::from("42")];
    let storage: Storage = Storage::new();
    let output = storage.command_echo(&command).unwrap();
    assert_eq!(output, RESP::BulkString(String::from("42")));
}

#[test]
fn test_set_value() {
    let mut storage: Storage = Storage::new();
    let avalue = StorageData::from(String::from("avalue"));

    let output = storage
        .set(String::from("akey"), String::from("avalue"), SetArgs::new())
        .unwrap();

    assert_eq!(output, String::from("OK"));
    assert_eq!(storage.store.len(), 1);
    match storage.store.get(&String::from("akey")) {
        Some(value) => assert_eq!(value, &avalue),
        None => panic!(),
    }
}

#[test]
fn test_get_value() {
    let mut storage: Storage = Storage::new();
    storage.store.insert(
        String::from("akey"),
        StorageData::from(String::from("avalue")),
    );
    let result = storage.get(String::from("akey")).unwrap();
    assert_eq!(storage.store.len(), 1);
    assert_eq!(result, Some(String::from("avalue")));
}

#[test]
fn test_get_value_key_does_not_exist() {
    let mut storage: Storage = Storage::new();
    let result = storage.get(String::from("akey")).unwrap();
    assert_eq!(storage.store.len(), 0);
    assert_eq!(result, None);
}

#[test]
fn test_process_command_set() {
    let mut storage: Storage = Storage::new();
    let command = vec![
        String::from("set"),
        String::from("key"),
        String::from("value"),
    ];
    let output = storage.process_command(&command).unwrap();
    assert_eq!(output, RESP::SimpleString(String::from("OK")));
    assert_eq!(storage.store.len(), 1);
}

#[test]
fn test_process_command_get() {
    let mut storage: Storage = Storage::new();
    storage.store.insert(
        String::from("akey"),
        StorageData::from(String::from("avalue")),
    );
    let command = vec![String::from("get"), String::from("akey")];
    let output = storage.process_command(&command).unwrap();
    assert_eq!(output, RESP::BulkString(String::from("avalue")));
    assert_eq!(storage.store.len(), 1);
}

#[test]
fn test_expire_keys() {
    let mut storage: Storage = Storage::new();
    storage
        .set(String::from("akey"), String::from("avalue"), SetArgs::new())
        .unwrap();
    storage.expiry.insert(String::from("akey"), now_ms() - 5000);
    storage.expire_keys();
    assert_eq!(storage.store.len(), 0);
}

#[test]
fn test_expire_keys_deactivated() {
    let mut storage: Storage = Storage::new();
    storage.set_active_expiry(false);
    storage
        .set(String::from("akey"), String::from("avalue"), SetArgs::new())
        .unwrap();
    storage.expiry.insert(String::from("akey"), now_ms() - 5000);
    storage.expire_keys();
    assert_eq!(storage.store.len(), 1);
}

#[test]
fn test_set_value_with_px() {
    let mut storage: Storage = Storage::new();
    let mut avalue = StorageData::from(String::from("avalue"));
    avalue.add_expiry(100);

    let output = storage
        .set(
            String::from("akey"),
            String::from("avalue"),
            SetArgs {
                expiry: Some(KeyExpiry::PX(100)),
                existence: None,
                get: false,
            },
        )
        .unwrap();

    assert_eq!(output, String::from("OK"));
    assert_eq!(storage.store.len(), 1);
    match storage.store.get(&String::from("akey")) {
        Some(value) => assert_eq!(value, &avalue),
        None => panic!(),
    }
    storage.expiry.get(&String::from("akey")).unwrap();
}

#[test]
fn test_lazy_expiry_removes_key() {
    let mut storage: Storage = Storage::new();
    storage
        .set_at(
            String::from("akey"),
            String::from("avalue"),
            SetArgs {
                expiry: Some(KeyExpiry::PX(50)),
                existence: None,
                get: false,
            },
            1_000,
        )
        .unwrap();
    assert_eq!(storage.get_at(String::from("akey"), 1_040).unwrap(), Some(String::from("avalue")));
    assert_eq!(storage.get_at(String::from("akey"), 1_050).unwrap(), None);
    assert_eq!(storage.store.len(), 0);
    assert_eq!(storage.expiry.len(), 0);
    assert_eq!(storage.get_at(String::from("akey"), 9_999).unwrap(), None);
}

#[test]
fn test_set_overwrites_and_clears_ttl() {
    let mut storage: Storage = Storage::new();
    storage
        .set_at(
            String::from("k"),
            String::from("v1"),
            SetArgs {
                expiry: Some(KeyExpiry::EX(1)),
                existence: None,
                get: false,
            },
            1_000,
        )
        .unwrap();
    storage
        .set_at(String::from("k"), String::from("v2"), SetArgs::new(), 1_500)
        .unwrap();
    assert_eq!(storage.expiry.len(), 0);
    assert_eq!(storage.get_at(String::from("k"), 5_000).unwrap(), Some(String::from("v2")));
}

#[test]
fn test_get_idempotent_on_live_key() {
    let mut storage: Storage = Storage::new();
    storage
        .set_at(String::from("k"), String::from("v"), SetArgs::new(), 1_000)
        .unwrap();
    let first = storage.get_at(String::from("k"), 2_000).unwrap();
    let second = storage.get_at(String::from("k"), 3_000).unwrap();
    assert_eq!(first, Some(String::from("v")));
    assert_eq!(first, second);
    assert_eq!(storage.store.len(), 1);
}

#[test]
fn test_sweep_only_removes_expired() {
    let mut storage: Storage = Storage::new();
    storage
        .set_at(
            String::from("old"),
            String::from("x"),
            SetArgs {
                expiry: Some(KeyExpiry::PX(10)),
                existence: None,
                get: false,
            },
            1_000,
        )
        .unwrap();
    storage
        .set_at(String::from("keep"), String::from("y"), SetArgs::new(), 1_000)
        .unwrap();
    storage.expire_keys_at(2_000);
    assert_eq!(storage.store.len(), 1);
    assert_eq!(storage.get_at(String::from("keep"), 2_000).unwrap(), Some(String::from("y")));
    assert_eq!(storage.get_at(String::from("old"), 2_000).unwrap(), None);
}

#[test]
fn test_command_not_available() {
    let mut storage: Storage = Storage::new();
    let command = vec![String::from("flush")];
    let output = storage.process_command(&command);
    match output {
        Err(miniredis::storage_result::StorageError::CommandNotAvailable(name)) => {
            assert_eq!(name, String::from("flush"));
        }
        _ => panic!(),
    }
}

#[test]
fn test_command_get_wrong_arity() {
    let mut storage: Storage = Storage::new();
    let command = vec![String::from("get")];
    match storage.process_command(&command) {
        Err(miniredis::storage_result::StorageError::CommandSyntaxError(s)) => {
            assert_eq!(s, String::from("get"));
        }
        _ => panic!(),
    }
}

#[test]
fn test_command_set_wrong_arity() {
    let mut storage: Storage = Storage::new();
    let command = vec![String::from("set"), String::from("key")];
    match storage.process_command(&command) {
        Err(miniredis::storage_result::StorageError::CommandSyntaxError(s)) => {
            assert_eq!(s, String::from("set key"));
        }
        _ => panic!(),
    }
}
