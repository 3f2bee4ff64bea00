use data_cluster::cluster::HashRing;
use data_cluster::router::{handle_router_command, RouterRequest, RouterResponse};
use data_cluster::shard::{Shard, ShardCmd, StorageOwner};
use data_cluster::cluster::ClusterTrait;

fn setup(shards: usize, replicas: usize, capacity: usize) -> (HashRing, Vec<StorageOwner>) {
    let mut ring = HashRing::new(replicas);
    let mut owners = Vec::new();
    for i in 0..shards {
        let name = format!("storage_{i}");
        owners.push(StorageOwner::new(name.clone(), capacity));
        ring.add_node(Shard::new(name, i));
    }
    (ring, owners)
}

fn put(ring: &HashRing, owners: &mut Vec<StorageOwner>, key: &str, value: &str) -> RouterResponse {
    handle_router_command(
        ring,
        owners,
        RouterRequest::Put { key: key.to_string(), value: value.to_string() },
    )
}

fn get(ring: &HashRing, owners: &mut Vec<StorageOwner>, key: &str) -> RouterResponse {
    handle_router_command(ring, owners, RouterRequest::Get { key: key.to_string() })
}

#[test]
fn empty_ring_is_a_routing_failure() {
    let ring = HashRing::new(4);
    let mut owners: Vec<StorageOwner> = Vec::new();
    let r = get(&ring, &mut owners, "key1");
    assert!(matches!(r, RouterResponse::Failed(m) if m == "Storage not found"));
    let r = put(&ring, &mut owners, "key1", "value1");
    assert!(matches!(r, RouterResponse::Failed(m) if m == "Storage not found"));
    let r = handle_router_command(&ring, &mut owners, RouterRequest::List);
    assert!(matches!(r, RouterResponse::Nothing));
}

#[test]
fn get_of_an_absent_key_is_not_an_error() {
    let (ring, mut owners) = setup(3, 3, 16);
    let r = get(&ring, &mut owners, "never_set");
    assert!(matches!(r, RouterResponse::Nothing));
}

#[test]
fn delete_succeeds_regardless_of_prior_existence() {
    let (ring, mut owners) = setup(3, 3, 16);
    assert!(matches!(put(&ring, &mut owners, "key1", "value1"), RouterResponse::Done));
    let r = handle_router_command(
        &ring,
        &mut owners,
        RouterRequest::Delete { key: "key1".to_string() },
    );
    assert!(matches!(r, RouterResponse::Done));
    let r = handle_router_command(
        &ring,
        &mut owners,
        RouterRequest::Delete { key: "key1".to_string() },
    );
    assert!(matches!(r, RouterResponse::Done));
}

#[test]
fn get_on_a_full_mailbox_is_busy() {
    let (ring, mut owners) = setup(3, 3, 1);
    // Find the owner that "key1" routes to and fill its mailbox.
    let target = ring.get("key1").unwrap();
    owners[target.node].mailbox.try_send(ShardCmd::List).unwrap();
    let r = get(&ring, &mut owners, "key1");
    assert!(matches!(r, RouterResponse::Busy));
}

#[test]
fn list_fails_fast_on_a_busy_shard() {
    // Three shards; the second distinct shard is slow: its mailbox is full.
    // List surfaces Busy, never a partial key list from the others.
    let (ring, mut owners) = setup(3, 3, 1);
    assert!(matches!(put(&ring, &mut owners, "key1", "value1"), RouterResponse::Done));
    let shards = ring.nodes();
    assert_eq!(shards.len(), 3);
    let slow = shards[1].node;
    owners[slow].mailbox.try_send(ShardCmd::List).unwrap();
    let r = handle_router_command(&ring, &mut owners, RouterRequest::List);
    assert!(matches!(r, RouterResponse::Busy), "expected Busy, got {r:?}");
}

#[test]
fn list_fails_fast_on_a_closed_shard() {
    let (ring, mut owners) = setup(3, 3, 8);
    let shards = ring.nodes();
    let dead = shards[1].node;
    owners[dead].mailbox.close();
    let r = handle_router_command(&ring, &mut owners, RouterRequest::List);
    assert!(matches!(r, RouterResponse::Failed(m) if m == "failed to send request"));
}

#[test]
fn end_to_end_scenario() {
    // Ring with 3 shards, 3 virtual positions each: two writes, a read, a
    // delete, a read of the deleted key, and a final List.
    let (ring, mut owners) = setup(3, 3, 16);
    assert!(matches!(put(&ring, &mut owners, "key1", "value1"), RouterResponse::Done));
    assert!(matches!(put(&ring, &mut owners, "key2", "value2"), RouterResponse::Done));
    match get(&ring, &mut owners, "key1") {
        RouterResponse::Value(v) => assert_eq!(v, "value1"),
        other => panic!("unexpected response: {other:?}"),
    }
    let r = handle_router_command(
        &ring,
        &mut owners,
        RouterRequest::Delete { key: "key2".to_string() },
    );
    assert!(matches!(r, RouterResponse::Done));
    assert!(matches!(get(&ring, &mut owners, "key2"), RouterResponse::Nothing));
    match handle_router_command(&ring, &mut owners, RouterRequest::List) {
        RouterResponse::List(keys) => assert_eq!(keys, vec!["key1".to_string()]),
        other => panic!("unexpected response: {other:?}"),
    }
}

#[test]
fn list_of_an_empty_store_is_nothing() {
    let (ring, mut owners) = setup(3, 3, 16);
    let r = handle_router_command(&ring, &mut owners, RouterRequest::List);
    assert!(matches!(r, RouterResponse::Nothing));
}

#[test]
fn list_gathers_keys_from_every_shard() {
    let (ring, mut owners) = setup(3, 8, 16);
    let keys = ["key1", "key2", "key3", "key4", "key5", "key6"];
    for key in keys {
        assert!(matches!(put(&ring, &mut owners, key, "v"), RouterResponse::Done));
    }
    match handle_router_command(&ring, &mut owners, RouterRequest::List) {
        RouterResponse::List(mut got) => {
            got.sort();
            let want: Vec<String> = keys.iter().map(|k| k.to_string()).collect();
            assert_eq!(got, want);
        },
        other => panic!("unexpected response: {other:?}"),
    }
}
