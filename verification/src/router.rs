//! The router: translates one client-level request into one or more shard
//! operations and produces one client-level response.
//!
//! `Get`, `Put` and `Delete` go to the single shard the ring resolves the
//! key to. `List` fans out to every distinct shard and aggregates the keys,
//! failing fast: the first `Busy` or failure is surfaced as is, and partial
//! results already gathered are discarded, never returned.

use vstd::prelude::*;

use crate::cluster::{hash64_of, ring_lookup, ClusterTrait, RingEntryV};
use crate::cluster::{dedup_shards, lemma_dedup_distinct, lemma_ring_lookup_member};
use crate::shard::{
    send_outcome, OwnerV, Shard, ShardCmd, ShardCmdV, ShardResponse, ShardResponseV, ShardV,
    StorageOwner,
};

verus! {

/// A client-level request.
#[derive(Debug, Clone)]
pub enum RouterRequest {
    Get { key: String },
    Put { key: String, value: String },
    Delete { key: String },
    List,
}

/// A client-level response.
#[derive(Debug, Clone)]
pub enum RouterResponse {
    Value(String),
    List(Vec<String>),
    Nothing,
    Done,
    Busy,
    Failed(String),
}

/// The mathematical reading of a request.
pub enum RouterRequestV {
    Get { key: Seq<char> },
    Put { key: Seq<char>, value: Seq<char> },
    Delete { key: Seq<char> },
    List,
}

impl View for RouterRequest {
    type V = RouterRequestV;

    open spec fn view(&self) -> RouterRequestV {
        match self {
            RouterRequest::Get { key } => RouterRequestV::Get { key: key@ },
            RouterRequest::Put { key, value } => RouterRequestV::Put {
                key: key@,
                value: value@,
            },
            RouterRequest::Delete { key } => RouterRequestV::Delete { key: key@ },
            RouterRequest::List => RouterRequestV::List,
        }
    }
}

/// The mathematical reading of a response.
pub enum RouterResponseV {
    Value(Seq<char>),
    List(Seq<Seq<char>>),
    Nothing,
    Done,
    Busy,
    Failed(Seq<char>),
}

impl View for RouterResponse {
    type V = RouterResponseV;

    open spec fn view(&self) -> RouterResponseV {
        match self {
            RouterResponse::Value(v) => RouterResponseV::Value(v@),
            RouterResponse::List(ks) => RouterResponseV::List(ks@.map_values(|s: String| s@)),
            RouterResponse::Nothing => RouterResponseV::Nothing,
            RouterResponse::Done => RouterResponseV::Done,
            RouterResponse::Busy => RouterResponseV::Busy,
            RouterResponse::Failed(m) => RouterResponseV::Failed(m@),
        }
    }
}

/// The readings of a vector of owners, in order.
pub open spec fn owners_view(owners: Seq<StorageOwner>) -> Seq<OwnerV> {
    owners.map_values(|o: StorageOwner| o@)
}

/// Every handle on the ring addresses an owner that exists.
pub open spec fn ring_linked(ring: Seq<RingEntryV>, owners: Seq<OwnerV>) -> bool {
    forall|i: int| 0 <= i < ring.len() ==> (#[trigger] ring[i]).shard.node < owners.len()
}

/// Every owner's store has pairwise-distinct keys.
pub open spec fn owners_wf(owners: Seq<StorageOwner>) -> bool {
    forall|k: int| 0 <= k < owners.len() ==> (#[trigger] owners[k]).wf()
}

/// How a shard's answer to a `Get` reads to the client: a value, a miss,
/// backpressure, or a failure, surfaced and never retried.
pub open spec fn compose_get(r: ShardResponseV) -> RouterResponseV {
    match r {
        ShardResponseV::Value(Some(v)) => RouterResponseV::Value(v),
        ShardResponseV::Value(None) => RouterResponseV::Nothing,
        ShardResponseV::Busy => RouterResponseV::Busy,
        ShardResponseV::Failed(m) => RouterResponseV::Failed(m),
        _ => RouterResponseV::Failed("Unexpected response"@),
    }
}

/// How a shard's answer to a `Put` or `Delete` reads to the client.
pub open spec fn compose_done(r: ShardResponseV) -> RouterResponseV {
    match r {
        ShardResponseV::Done => RouterResponseV::Done,
        ShardResponseV::Busy => RouterResponseV::Busy,
        ShardResponseV::Failed(m) => RouterResponseV::Failed(m),
        _ => RouterResponseV::Failed("Unexpected response"@),
    }
}

/// The `List` fan-out over the distinct shards, in ring order: each shard
/// in turn is sent `List` and its keys join the accumulation; the first
/// `Busy` or failure aborts the walk and is surfaced alone, the keys
/// gathered so far discarded. When every shard answered and no key exists,
/// the client sees the empty outcome.
pub open spec fn list_fanout(
    owners: Seq<OwnerV>,
    shards: Seq<ShardV>,
    acc: Seq<Seq<char>>,
) -> (Seq<OwnerV>, RouterResponseV)
    decreases shards.len(),
{
    if shards.len() == 0 {
        (
            owners,
            if acc.len() == 0 {
                RouterResponseV::Nothing
            } else {
                RouterResponseV::List(acc)
            },
        )
    } else {
        let node = shards[0].node as int;
        let outcome = send_outcome(owners[node], ShardCmdV::List);
        let owners2 = owners.update(node, outcome.0);
        match outcome.1 {
            ShardResponseV::List(ks) => list_fanout(owners2, shards.drop_first(), acc + ks),
            ShardResponseV::Busy => (owners2, RouterResponseV::Busy),
            ShardResponseV::Failed(m) => (owners2, RouterResponseV::Failed(m)),
            _ => (owners2, RouterResponseV::Failed("Unexpected response"@)),
        }
    }
}

/// What one client request does to the owners and answers to the client.
/// `Get`, `Put` and `Delete` go to the one shard the ring resolves the key
/// to, and fail with a routing error exactly when the ring is empty; `List`
/// fans out to every distinct shard.
pub open spec fn router_step(
    ring: Seq<RingEntryV>,
    owners: Seq<OwnerV>,
    req: RouterRequestV,
) -> (Seq<OwnerV>, RouterResponseV) {
    match req {
        RouterRequestV::Get { key } => {
            if ring.len() == 0 {
                (owners, RouterResponseV::Failed("Storage not found"@))
            } else {
                let sh = ring_lookup(ring, hash64_of(key));
                let outcome = send_outcome(owners[sh.node as int], ShardCmdV::Get { key });
                (owners.update(sh.node as int, outcome.0), compose_get(outcome.1))
            }
        },
        RouterRequestV::Put { key, value } => {
            if ring.len() == 0 {
                (owners, RouterResponseV::Failed("Storage not found"@))
            } else {
                let sh = ring_lookup(ring, hash64_of(key));
                let outcome = send_outcome(owners[sh.node as int], ShardCmdV::Put { key, value });
                (owners.update(sh.node as int, outcome.0), compose_done(outcome.1))
            }
        },
        RouterRequestV::Delete { key } => {
            if ring.len() == 0 {
                (owners, RouterResponseV::Failed("Storage not found"@))
            } else {
                let sh = ring_lookup(ring, hash64_of(key));
                let outcome = send_outcome(owners[sh.node as int], ShardCmdV::Delete { key });
                (owners.update(sh.node as int, outcome.0), compose_done(outcome.1))
            }
        },
        RouterRequestV::List => list_fanout(
            owners,
            dedup_shards(ring, Set::<Seq<char>>::empty()),
            Seq::<Seq<char>>::empty(),
        ),
    }
}

/// Fail-fast aggregation: when every shard before position `j` would
/// accept its message but shard `j`'s mailbox is full or closed at its
/// turn, the fan-out surfaces `Busy` (for a full mailbox) or the send
/// failure (for a closed one) — never a key list built from the shards
/// that did answer.
pub proof fn lemma_list_fanout_fail_fast(
    owners: Seq<OwnerV>,
    shards: Seq<ShardV>,
    acc: Seq<Seq<char>>,
    j: int,
)
    requires
        0 <= j < shards.len(),
        forall|a: int, b: int|
            0 <= a < b < shards.len() ==> (#[trigger] shards[a]).node != (
            #[trigger] shards[b]).node,
        forall|a: int| 0 <= a < shards.len() ==> (#[trigger] shards[a]).node < owners.len(),
        forall|a: int|
            0 <= a < j ==> crate::shard::owner_available(
                owners[(#[trigger] shards[a]).node as int],
            ),
        !crate::shard::owner_available(owners[shards[j].node as int]),
    ensures
        owners[shards[j].node as int].closed ==> list_fanout(owners, shards, acc).1
            == RouterResponseV::Failed("failed to send request"@),
        !owners[shards[j].node as int].closed ==> list_fanout(owners, shards, acc).1
            == RouterResponseV::Busy,
    decreases j,
{
    let node = shards[0].node as int;
    let outcome = send_outcome(owners[node], ShardCmdV::List);
    if j == 0 {
    } else {
        assert(crate::shard::owner_available(owners[node]));
        let owners2 = owners.update(node, outcome.0);
        let rest = shards.drop_first();
        assert forall|a: int|
            0 <= a < rest.len() implies (#[trigger] rest[a]).node == shards[a + 1].node by {}
        assert forall|a: int| 0 <= a < j - 1 implies crate::shard::owner_available(
            owners2[(#[trigger] rest[a]).node as int],
        ) by {
            assert(rest[a].node == shards[a + 1].node);
            assert(shards[a + 1].node != shards[0].node);
            assert(owners2[rest[a].node as int] == owners[rest[a].node as int]);
        }
        assert(rest[j - 1].node == shards[j].node);
        assert(shards[j].node != shards[0].node);
        assert(owners2[rest[j - 1].node as int] == owners[shards[j].node as int]);
        lemma_list_fanout_fail_fast(
            owners2,
            rest,
            acc
                + (match outcome.1 {
                ShardResponseV::List(ks) => ks,
                _ => Seq::<Seq<char>>::empty(),
            }),
            j - 1,
        );
    }
}

/// Turns a shard's answer to a `Get` into the client's response.
pub fn route_reply_get(r: ShardResponse) -> (out: RouterResponse)
    ensures
        out@ == compose_get(r@),
{
    match r {
        ShardResponse::Value(Some(v)) => RouterResponse::Value(v),
        ShardResponse::Value(None) => RouterResponse::Nothing,
        ShardResponse::Busy => RouterResponse::Busy,
        ShardResponse::Failed(m) => RouterResponse::Failed(m),
        _ => RouterResponse::Failed("Unexpected response".to_owned()),
    }
}

/// Turns a shard's answer to a `Put` or `Delete` into the client's
/// response.
pub fn route_reply_done(r: ShardResponse) -> (out: RouterResponse)
    ensures
        out@ == compose_done(r@),
{
    match r {
        ShardResponse::Done => RouterResponse::Done,
        ShardResponse::Busy => RouterResponse::Busy,
        ShardResponse::Failed(m) => RouterResponse::Failed(m),
        _ => RouterResponse::Failed("Unexpected response".to_owned()),
    }
}

/// Closes a completed fan-out: no key at all reads as the empty outcome,
/// anything else as the full key list.
pub fn list_finish(keys: Vec<String>) -> (out: RouterResponse)
    ensures
        out@ == (if keys@.len() == 0 {
            RouterResponseV::Nothing
        } else {
            RouterResponseV::List(keys@.map_values(|s: String| s@))
        }),
{
    if keys.is_empty() {
        RouterResponse::Nothing
    } else {
        RouterResponse::List(keys)
    }
}

/// One step of the router's loop: takes one client request, consults the
/// ring, reaches the owners through their mailboxes, and produces the one
/// client response, as `router_step` reads it.
pub fn handle_router_command<C: ClusterTrait>(
    ring: &C,
    owners: &mut Vec<StorageOwner>,
    req: RouterRequest,
) -> (r: RouterResponse)
    requires
        ring.ring_inv(),
        ring_linked(ring.ring(), owners_view(old(owners)@)),
        owners_wf(old(owners)@),
    ensures
        final(owners)@.len() == old(owners)@.len(),
        owners_wf(final(owners)@),
        owners_view(final(owners)@) == router_step(
            ring.ring(),
            owners_view(old(owners)@),
            req@,
        ).0,
        r@ == router_step(ring.ring(), owners_view(old(owners)@), req@).1,
{
    let ghost pre = owners_view(owners@);
    match req {
        RouterRequest::Get { key } => {
            let ghost kv = key@;
            match ring.get(key.as_str()) {
                Some(target) => {
                    proof {
                        lemma_ring_lookup_member(ring.ring(), hash64_of(kv));
                    }
                    let resp = target.send(owners, ShardCmd::Get { key });
                    proof {
                        assert(owners_view(owners@) =~= pre.update(
                            target@.node as int,
                            send_outcome(pre[target@.node as int], ShardCmdV::Get { key: kv }).0,
                        ));
                        assert forall|k: int| 0 <= k < owners@.len() implies (#[trigger] owners@[k]).wf() by {
                            if k != target@.node as int {
                                assert(owners@[k] == old(owners)@[k]);
                                assert(old(owners)@[k].wf());
                            }
                        }
                    }
                    route_reply_get(resp)
                },
                None => RouterResponse::Failed("Storage not found".to_owned()),
            }
        },
        RouterRequest::Put { key, value } => {
            let ghost kv = key@;
            let ghost vv = value@;
            match ring.get(key.as_str()) {
                Some(target) => {
                    proof {
                        lemma_ring_lookup_member(ring.ring(), hash64_of(kv));
                    }
                    let resp = target.send(owners, ShardCmd::Put { key, value });
                    proof {
                        assert(owners_view(owners@) =~= pre.update(
                            target@.node as int,
                            send_outcome(
                                pre[target@.node as int],
                                ShardCmdV::Put { key: kv, value: vv },
                            ).0,
                        ));
                        assert forall|k: int| 0 <= k < owners@.len() implies (#[trigger] owners@[k]).wf() by {
                            if k != target@.node as int {
                                assert(owners@[k] == old(owners)@[k]);
                                assert(old(owners)@[k].wf());
                            }
                        }
                    }
                    route_reply_done(resp)
                },
                None => RouterResponse::Failed("Storage not found".to_owned()),
            }
        },
        RouterRequest::Delete { key } => {
            let ghost kv = key@;
            match ring.get(key.as_str()) {
                Some(target) => {
                    proof {
                        lemma_ring_lookup_member(ring.ring(), hash64_of(kv));
                    }
                    let resp = target.send(owners, ShardCmd::Delete { key });
                    proof {
                        assert(owners_view(owners@) =~= pre.update(
                            target@.node as int,
                            send_outcome(
                                pre[target@.node as int],
                                ShardCmdV::Delete { key: kv },
                            ).0,
                        ));
                        assert forall|k: int| 0 <= k < owners@.len() implies (#[trigger] owners@[k]).wf() by {
                            if k != target@.node as int {
                                assert(owners@[k] == old(owners)@[k]);
                                assert(old(owners)@[k].wf());
                            }
                        }
                    }
                    route_reply_done(resp)
                },
                None => RouterResponse::Failed("Storage not found".to_owned()),
            }
        },
        RouterRequest::List => {
            let shards = ring.nodes();
            let ghost shards_v = shards@.map_values(|x: Shard| x@);
            proof {
                lemma_dedup_distinct(ring.ring(), Set::<Seq<char>>::empty());
            }
            let n = shards.len();
            let mut keys: Vec<String> = Vec::new();
            let mut i: usize = 0;
            proof {
                assert(shards_v.skip(0) =~= shards_v);
                assert(keys@.map_values(|s: String| s@) =~= Seq::<Seq<char>>::empty());
            }
            while i < n
                invariant
                    n == shards@.len(),
                    i <= n,
                    shards_v == shards@.map_values(|x: Shard| x@),
                    shards_v == dedup_shards(ring.ring(), Set::<Seq<char>>::empty()),
                    owners@.len() == old(owners)@.len(),
                    owners_wf(owners@),
                    forall|a: int|
                        0 <= a < shards_v.len() ==> (#[trigger] shards_v[a]).node
                            < owners@.len(),
                    list_fanout(
                        owners_view(owners@),
                        shards_v.skip(i as int),
                        keys@.map_values(|s: String| s@),
                    ) == list_fanout(pre, shards_v, Seq::<Seq<char>>::empty()),
                    pre == owners_view(old(owners)@),
                    req@ == RouterRequestV::List,
                decreases n - i,
            {
                let ghost cur = owners_view(owners@);
                let ghost rest = shards_v.skip(i as int);
                let ghost acc = keys@.map_values(|s: String| s@);
                proof {
                    assert(rest[0] == shards_v[i as int]);
                    assert(rest.drop_first() =~= shards_v.skip(i as int + 1));
                    assert(shards@[i as int]@ == shards_v[i as int]);
                }
                let ghost prev_owners = owners@;
                let resp = shards[i].send(owners, ShardCmd::List);
                let ghost node = shards_v[i as int].node as int;
                let ghost outcome = send_outcome(cur[node], ShardCmdV::List);
                let ghost respv = resp@;
                proof {
                    assert(owners_view(owners@) =~= cur.update(node, outcome.0));
                    assert(respv == outcome.1);
                    assert forall|k: int| 0 <= k < owners@.len() implies (#[trigger] owners@[k]).wf() by {
                        if k != node {
                            assert(owners@[k] == prev_owners[k]);
                            assert(prev_owners[k].wf());
                        }
                    }
                }
                match resp {
                    ShardResponse::List(ks) => {
                        let mut ks = ks;
                        keys.append(&mut ks);
                        proof {
                            assert(keys@.map_values(|s: String| s@) =~= acc
                                + (match outcome.1 {
                                ShardResponseV::List(v) => v,
                                _ => Seq::<Seq<char>>::empty(),
                            }));
                        }
                    },
                    ShardResponse::Busy => {
                        return RouterResponse::Busy;
                    },
                    ShardResponse::Failed(m) => {
                        return RouterResponse::Failed(m);
                    },
                    _ => {
                        return vstd::pervasive::unreached();
                    },
                }
                i = i + 1;
            }
            proof {
                assert(shards_v.skip(n as int) =~= Seq::<ShardV>::empty());
            }
            list_finish(keys)
        },
    }
}

} // verus!
