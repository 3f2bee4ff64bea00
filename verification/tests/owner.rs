use data_cluster::pipe::{channel, Mailbox, SendError};
use data_cluster::shard::{
    handle_shard_command, Shard, ShardCmd, ShardResponse, StorageOwner,
};
use data_cluster::storage::Storage;
use data_cluster::storage::StorageTrait;

#[test]
fn mailbox_is_fifo() {
    let mut m: Mailbox<u32> = channel(4);
    assert_eq!(m.len(), 0);
    assert!(m.try_send(1).is_ok());
    assert!(m.try_send(2).is_ok());
    assert_eq!(m.recv(), Some(1));
    assert_eq!(m.recv(), Some(2));
    assert_eq!(m.recv(), None);
}

#[test]
fn full_mailbox_turns_sends_down() {
    let mut m: Mailbox<u32> = channel(2);
    assert!(m.try_send(1).is_ok());
    assert!(m.try_send(2).is_ok());
    assert_eq!(m.try_send(3), Err(SendError::Full));
    assert_eq!(m.len(), 2);
}

#[test]
fn closed_mailbox_turns_sends_down() {
    let mut m: Mailbox<u32> = channel(2);
    m.close();
    assert_eq!(m.try_send(1), Err(SendError::Closed));
    assert_eq!(m.len(), 0);
}

#[test]
fn shard_command_step_applies_each_command() {
    let mut s = Storage::new("storage_0".to_string());
    let put = handle_shard_command(
        &mut s,
        ShardCmd::Put { key: "key1".to_string(), value: "value1".to_string() },
    );
    assert!(matches!(put, ShardResponse::Done));
    let get = handle_shard_command(&mut s, ShardCmd::Get { key: "key1".to_string() });
    assert!(matches!(get, ShardResponse::Value(Some(v)) if v == "value1"));
    let del = handle_shard_command(&mut s, ShardCmd::Delete { key: "key1".to_string() });
    assert!(matches!(del, ShardResponse::Done));
    let miss = handle_shard_command(&mut s, ShardCmd::Get { key: "key1".to_string() });
    assert!(matches!(miss, ShardResponse::Value(None)));
    let list = handle_shard_command(&mut s, ShardCmd::List);
    assert!(matches!(list, ShardResponse::List(keys) if keys.is_empty()));
}

#[test]
fn excess_sends_to_a_slow_owner_yield_busy() {
    // The owner is not draining: its mailbox fills up to capacity and the
    // excess send comes back Busy at once instead of blocking.
    let mut owner = StorageOwner::new("storage_0".to_string(), 2);
    assert!(owner.mailbox.try_send(ShardCmd::List).is_ok());
    assert!(owner.mailbox.try_send(ShardCmd::List).is_ok());
    let r = owner.send_cmd(ShardCmd::Get { key: "key1".to_string() });
    assert!(matches!(r, ShardResponse::Busy));
    assert_eq!(owner.mailbox.len(), 2);
}

#[test]
fn sends_to_a_closed_owner_fail() {
    let mut owner = StorageOwner::new("storage_0".to_string(), 4);
    owner.mailbox.close();
    let r = owner.send_cmd(ShardCmd::Get { key: "key1".to_string() });
    assert!(matches!(r, ShardResponse::Failed(m) if m == "failed to send request"));
}

#[test]
fn replies_come_in_arrival_order() {
    // Commands already queued are fully applied, in order, before the new
    // command is answered: the reply reflects both earlier writes.
    let mut owner = StorageOwner::new("storage_0".to_string(), 8);
    assert!(owner
        .mailbox
        .try_send(ShardCmd::Put { key: "key1".to_string(), value: "a".to_string() })
        .is_ok());
    assert!(owner
        .mailbox
        .try_send(ShardCmd::Put { key: "key1".to_string(), value: "b".to_string() })
        .is_ok());
    let r = owner.send_cmd(ShardCmd::Get { key: "key1".to_string() });
    assert!(matches!(r, ShardResponse::Value(Some(v)) if v == "b"));
    assert_eq!(owner.mailbox.len(), 0);
}

#[test]
fn set_set_get_sees_the_second_value() {
    // Awaiting each reply before sending the next: the read returns the
    // second write.
    let mut owner = StorageOwner::new("storage_0".to_string(), 4);
    let first =
        owner.send_cmd(ShardCmd::Put { key: "key1".to_string(), value: "a".to_string() });
    assert!(matches!(first, ShardResponse::Done));
    let second =
        owner.send_cmd(ShardCmd::Put { key: "key1".to_string(), value: "b".to_string() });
    assert!(matches!(second, ShardResponse::Done));
    let read = owner.send_cmd(ShardCmd::Get { key: "key1".to_string() });
    assert!(matches!(read, ShardResponse::Value(Some(v)) if v == "b"));
}

#[test]
fn shard_handle_reaches_its_owner() {
    let mut owners = vec![
        StorageOwner::new("storage_0".to_string(), 4),
        StorageOwner::new("storage_1".to_string(), 4),
    ];
    let shard = Shard::new("storage_1".to_string(), 1);
    assert_eq!(shard.get_name(), "storage_1");
    let put = shard.send(
        &mut owners,
        ShardCmd::Put { key: "key1".to_string(), value: "value1".to_string() },
    );
    assert!(matches!(put, ShardResponse::Done));
    let read = shard.send(&mut owners, ShardCmd::Get { key: "key1".to_string() });
    assert!(matches!(read, ShardResponse::Value(Some(v)) if v == "value1"));
    // The other owner was never touched.
    assert!(owners[0].storage.get("key1".to_string()).is_none());
}
