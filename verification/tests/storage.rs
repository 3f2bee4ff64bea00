use data_cluster::storage::{handle_storage_command, Storage, StorageCmd, StorageResponse};
use data_cluster::storage::StorageTrait;

#[test]
fn empty_storage_has_nothing() {
    let s = Storage::new("storage_0".to_string());
    assert_eq!(s.get_name(), "storage_0");
    assert!(s.get("key1".to_string()).is_none());
    assert!(s.list().is_empty());
}

#[test]
fn set_then_get_returns_the_value() {
    let mut s = Storage::new("storage_0".to_string());
    s.set("key1".to_string(), "value1".to_string());
    assert_eq!(s.get("key1".to_string()), Some("value1".to_string()));
    assert!(s.get("key2".to_string()).is_none());
}

#[test]
fn set_overwrites() {
    let mut s = Storage::new("storage_0".to_string());
    s.set("key1".to_string(), "a".to_string());
    s.set("key1".to_string(), "b".to_string());
    assert_eq!(s.get("key1".to_string()), Some("b".to_string()));
    assert_eq!(s.list().len(), 1);
}

#[test]
fn delete_removes_and_tolerates_absence() {
    let mut s = Storage::new("storage_0".to_string());
    s.set("key1".to_string(), "value1".to_string());
    s.delete("key1".to_string());
    assert!(s.get("key1".to_string()).is_none());
    s.delete("key1".to_string());
    assert!(s.get("key1".to_string()).is_none());
}

#[test]
fn list_holds_each_key_once() {
    let mut s = Storage::new("storage_0".to_string());
    s.set("key1".to_string(), "v1".to_string());
    s.set("key2".to_string(), "v2".to_string());
    s.set("key1".to_string(), "v3".to_string());
    let mut keys = s.list();
    keys.sort();
    assert_eq!(keys, vec!["key1".to_string(), "key2".to_string()]);
}

#[test]
fn storage_command_get_hit_and_miss() {
    let mut s = Storage::new("storage_0".to_string());
    s.set("key1".to_string(), "value1".to_string());
    let hit = handle_storage_command(&mut s, StorageCmd::Get { key: "key1".to_string() });
    assert!(matches!(hit, StorageResponse::Value(Some(v)) if v == "value1"));
    let miss = handle_storage_command(&mut s, StorageCmd::Get { key: "key2".to_string() });
    assert!(matches!(miss, StorageResponse::Value(None)));
}

#[test]
fn storage_command_put_delete_list() {
    let mut s = Storage::new("storage_0".to_string());
    let put = handle_storage_command(
        &mut s,
        StorageCmd::Put { key: "key1".to_string(), value: "value1".to_string() },
    );
    assert!(matches!(put, StorageResponse::Done));
    let del = handle_storage_command(&mut s, StorageCmd::Delete { key: "nope".to_string() });
    assert!(matches!(del, StorageResponse::Done));
    let list = handle_storage_command(&mut s, StorageCmd::List);
    match list {
        StorageResponse::List(Some(keys)) => assert_eq!(keys, vec!["key1".to_string()]),
        other => panic!("unexpected reply: {other:?}"),
    }
}
