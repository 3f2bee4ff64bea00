//! The shard handle: the addressable front of one storage owner.
//!
//! A `Shard` names a storage owner and records which owner mailbox it
//! addresses; it is the value the ring hands out and the router sends
//! through. Two shard identities are the same exactly when their names are
//! the same, however many ring positions they occupy.

use vstd::prelude::*;

use crate::pipe::{Mailbox, SendError};
use crate::storage::{
    entries_delete, entries_set, keys_of, map_of, Storage, StorageTrait,
};

verus! {

/// A command sent through a shard handle.
#[derive(Debug, Clone)]
pub enum ShardCmd {
    Get { key: String },
    Put { key: String, value: String },
    Delete { key: String },
    List,
}

/// The outcome of sending one command through a shard handle.
#[derive(Debug, Clone)]
pub enum ShardResponse {
    List(Vec<String>),
    Value(Option<String>),
    Done,
    Busy,
    Failed(String),
}

/// The mathematical reading of a shard handle: its name and the index of
/// the owner it addresses.
pub struct ShardV {
    pub name: Seq<char>,
    pub node: nat,
}

/// The addressable, cloneable front for a storage owner: a stable name and
/// the owner it reaches.
#[derive(Debug)]
pub struct Shard {
    pub shard_id: String,
    pub node: usize,
}

impl View for Shard {
    type V = ShardV;

    open spec fn view(&self) -> ShardV {
        ShardV { name: self.shard_id@, node: self.node as nat }
    }
}

impl Clone for Shard {
    fn clone(&self) -> (r: Self)
        ensures
            r@ == self@,
    {
        Shard { shard_id: self.shard_id.clone(), node: self.node }
    }
}

impl Shard {
    /// Makes a handle with the given name, addressing the owner at `node`.
    pub fn new(shard_id: String, node: usize) -> (r: Shard)
        ensures
            r@ == (ShardV { name: shard_id@, node: node as nat }),
    {
        Shard { shard_id, node }
    }

    /// The shard's stable name; the hashing key for ring placement and the
    /// dedup key for `nodes()`.
    pub fn get_name(&self) -> (r: &str)
        ensures
            r@ == self@.name,
    {
        self.shard_id.as_str()
    }
}

/// The mathematical reading of a command.
pub enum ShardCmdV {
    Get { key: Seq<char> },
    Put { key: Seq<char>, value: Seq<char> },
    Delete { key: Seq<char> },
    List,
}

impl View for ShardCmd {
    type V = ShardCmdV;

    open spec fn view(&self) -> ShardCmdV {
        match self {
            ShardCmd::Get { key } => ShardCmdV::Get { key: key@ },
            ShardCmd::Put { key, value } => ShardCmdV::Put { key: key@, value: value@ },
            ShardCmd::Delete { key } => ShardCmdV::Delete { key: key@ },
            ShardCmd::List => ShardCmdV::List,
        }
    }
}

/// The mathematical reading of a send outcome.
pub enum ShardResponseV {
    List(Seq<Seq<char>>),
    Value(Option<Seq<char>>),
    Done,
    Busy,
    Failed(Seq<char>),
}

impl View for ShardResponse {
    type V = ShardResponseV;

    open spec fn view(&self) -> ShardResponseV {
        match self {
            ShardResponse::List(ks) => ShardResponseV::List(ks@.map_values(|s: String| s@)),
            ShardResponse::Value(v) => ShardResponseV::Value(
                match v {
                    Some(s) => Some(s@),
                    None => None,
                },
            ),
            ShardResponse::Done => ShardResponseV::Done,
            ShardResponse::Busy => ShardResponseV::Busy,
            ShardResponse::Failed(m) => ShardResponseV::Failed(m@),
        }
    }
}

/// What one command leaves of a store's entries.
pub open spec fn cmd_entries_after(
    entries: Seq<(Seq<char>, Seq<char>)>,
    c: ShardCmdV,
) -> Seq<(Seq<char>, Seq<char>)> {
    match c {
        ShardCmdV::Get { .. } => entries,
        ShardCmdV::Put { key, value } => entries_set(entries, key, value),
        ShardCmdV::Delete { key } => entries_delete(entries, key),
        ShardCmdV::List => entries,
    }
}

/// The reply one command earns against a store's entries.
pub open spec fn cmd_reply(entries: Seq<(Seq<char>, Seq<char>)>, c: ShardCmdV) -> ShardResponseV {
    match c {
        ShardCmdV::Get { key } => ShardResponseV::Value(
            if map_of(entries).contains_key(key) {
                Some(map_of(entries)[key])
            } else {
                None
            },
        ),
        ShardCmdV::Put { .. } => ShardResponseV::Done,
        ShardCmdV::Delete { .. } => ShardResponseV::Done,
        ShardCmdV::List => ShardResponseV::List(keys_of(entries)),
    }
}

/// One step of the shard owner's loop: applies a single command to its
/// store, fully, before the next one is dequeued, and produces the reply.
pub fn handle_shard_command<S: StorageTrait>(storage: &mut S, cmd: ShardCmd) -> (r: ShardResponse)
    requires
        old(storage).store_inv(),
    ensures
        final(storage).store_inv(),
        final(storage).store_name() == old(storage).store_name(),
        final(storage).store() == cmd_entries_after(old(storage).store(), cmd@),
        r@ == cmd_reply(old(storage).store(), cmd@),
{
    match cmd {
        ShardCmd::Get { key } => {
            let value = storage.get(key);
            ShardResponse::Value(value)
        },
        ShardCmd::Put { key, value } => {
            storage.set(key, value);
            ShardResponse::Done
        },
        ShardCmd::Delete { key } => {
            storage.delete(key);
            ShardResponse::Done
        },
        ShardCmd::List => {
            let keys = storage.list();
            ShardResponse::List(keys)
        },
    }
}

/// One storage owner as deployed: its store and the bounded mailbox that
/// feeds it.
#[derive(Debug)]
pub struct StorageOwner {
    pub storage: Storage,
    pub mailbox: Mailbox<ShardCmd>,
}

/// The mathematical reading of a storage owner: name, stored entries,
/// pending commands in arrival order, mailbox capacity, and whether the
/// mailbox is closed.
pub struct OwnerV {
    pub name: Seq<char>,
    pub entries: Seq<(Seq<char>, Seq<char>)>,
    pub queue: Seq<ShardCmdV>,
    pub capacity: nat,
    pub closed: bool,
}

impl View for StorageOwner {
    type V = OwnerV;

    open spec fn view(&self) -> OwnerV {
        OwnerV {
            name: self.storage.name@,
            entries: self.storage.entries(),
            queue: self.mailbox.queue@.map_values(|c: ShardCmd| c@),
            capacity: self.mailbox.capacity as nat,
            closed: self.mailbox.closed,
        }
    }
}

/// A store's entries after a queue of commands, applied in arrival order.
pub open spec fn entries_after_queue(
    entries: Seq<(Seq<char>, Seq<char>)>,
    q: Seq<ShardCmdV>,
) -> Seq<(Seq<char>, Seq<char>)>
    decreases q.len(),
{
    if q.len() == 0 {
        entries
    } else {
        entries_after_queue(cmd_entries_after(entries, q[0]), q.drop_first())
    }
}

/// What sending one command to an owner does and returns. A closed mailbox
/// turns the send down; a full one yields `Busy` at once, leaving the owner
/// untouched; otherwise the command joins the queue, the owner drains it in
/// arrival order, and the command's own reply flows back.
pub open spec fn send_outcome(o: OwnerV, c: ShardCmdV) -> (OwnerV, ShardResponseV) {
    if o.closed {
        (o, ShardResponseV::Failed("failed to send request"@))
    } else if o.queue.len() >= o.capacity {
        (o, ShardResponseV::Busy)
    } else {
        let pre = entries_after_queue(o.entries, o.queue);
        (
            OwnerV {
                name: o.name,
                entries: cmd_entries_after(pre, c),
                queue: Seq::<ShardCmdV>::empty(),
                capacity: o.capacity,
                closed: o.closed,
            },
            cmd_reply(pre, c),
        )
    }
}

impl StorageOwner {
    /// Well-formed: the store's keys are pairwise distinct.
    pub open spec fn wf(&self) -> bool {
        self.storage.wf()
    }

    /// Makes an owner with an empty store and an empty, open mailbox of the
    /// given capacity.
    pub fn new(name: String, capacity: usize) -> (r: StorageOwner)
        ensures
            r.wf(),
            r@.name == name@,
            r@.entries =~= Seq::<(Seq<char>, Seq<char>)>::empty(),
            r@.queue =~= Seq::<ShardCmdV>::empty(),
            r@.capacity == capacity as nat,
            !r@.closed,
    {
        let r = StorageOwner {
            storage: Storage::new(name),
            mailbox: crate::pipe::channel(capacity),
        };
        proof {
            assert(r@.queue =~= Seq::<ShardCmdV>::empty());
        }
        r
    }

    /// Sends one command: a non-blocking enqueue, then exactly one reply
    /// for the one accepted message. A full mailbox yields `Busy` at once,
    /// never a block; a closed one yields a failure; an accepted command is
    /// answered after everything queued before it is fully applied.
    pub fn send_cmd(&mut self, cmd: ShardCmd) -> (r: ShardResponse)
        requires
            old(self).wf(),
        ensures
            final(self).wf(),
            final(self)@ == send_outcome(old(self)@, cmd@).0,
            r@ == send_outcome(old(self)@, cmd@).1,
    {
        let ghost total: Seq<ShardCmdV> = old(self)@.queue.push(cmd@);
        match self.mailbox.try_send(cmd) {
            Result::Err(SendError::Closed) => ShardResponse::Failed(
                "failed to send request".to_owned(),
            ),
            Result::Err(SendError::Full) => ShardResponse::Busy,
            Result::Ok(()) => {
                proof {
                    assert(self@.queue =~= total);
                }
                let mut last: ShardResponse = ShardResponse::Busy;
                let ghost orig = old(self)@.entries;
                let ghost mut done: Seq<ShardCmdV> = Seq::empty();
                proof {
                    assert(done + self@.queue =~= total);
                    assert(entries_after_queue(orig, done) == orig);
                }
                while self.mailbox.len() > 0
                    invariant
                        self.wf(),
                        self@.name == old(self)@.name,
                        self@.capacity == old(self)@.capacity,
                        self@.closed == old(self)@.closed,
                        done + self@.queue =~= total,
                        self@.entries == entries_after_queue(orig, done),
                        done.len() > 0 ==> last@ == cmd_reply(
                            entries_after_queue(orig, done.drop_last()),
                            done.last(),
                        ),
                    decreases self.mailbox.queue@.len(),
                {
                    let ghost pre_queue = self@.queue;
                    let ghost pre_done = done;
                    match self.mailbox.recv() {
                        Some(c) => {
                            proof {
                                assert(c@ == pre_queue[0]);
                                assert(self@.queue =~= pre_queue.drop_first());
                                done = done.push(c@);
                                assert(done.drop_last() =~= pre_done);
                                assert(done + self@.queue =~= total);
                            }
                            last = handle_shard_command(&mut self.storage, c);
                            proof {
                                lemma_entries_after_queue_push(orig, pre_done, c@);
                            }
                        },
                        None => {
                            last = vstd::pervasive::unreached();
                        },
                    }
                }
                proof {
                    assert(done =~= total);
                    assert(total.drop_last() =~= old(self)@.queue);
                    assert(total.last() == cmd@);
                    assert(self@.queue =~= Seq::<ShardCmdV>::empty());
                    lemma_entries_after_queue_push(orig, old(self)@.queue, cmd@);
                }
                last
            },
        }
    }
}

/// Processing one more command moves the fold over the queue one step.
proof fn lemma_entries_after_queue_push(
    entries: Seq<(Seq<char>, Seq<char>)>,
    q: Seq<ShardCmdV>,
    c: ShardCmdV,
)
    ensures
        entries_after_queue(entries, q.push(c)) == cmd_entries_after(
            entries_after_queue(entries, q),
            c,
        ),
    decreases q.len(),
{
    let qp = q.push(c);
    if q.len() == 0 {
        assert(qp.drop_first() =~= Seq::<ShardCmdV>::empty());
        assert(qp[0] == c);
        assert(entries_after_queue(entries, qp) == entries_after_queue(
            cmd_entries_after(entries, c),
            qp.drop_first(),
        ));
        assert(entries_after_queue(cmd_entries_after(entries, c), qp.drop_first())
            == cmd_entries_after(entries, c));
        assert(entries_after_queue(entries, q) == entries);
    } else {
        assert(qp.drop_first() =~= q.drop_first().push(c));
        assert(qp[0] == q[0]);
        assert(entries_after_queue(entries, qp) == entries_after_queue(
            cmd_entries_after(entries, q[0]),
            qp.drop_first(),
        ));
        lemma_entries_after_queue_push(cmd_entries_after(entries, q[0]), q.drop_first(), c);
        assert(entries_after_queue(entries, q) == entries_after_queue(
            cmd_entries_after(entries, q[0]),
            q.drop_first(),
        ));
    }
}

/// An owner that will accept one more message: its mailbox is open and not
/// yet full.
pub open spec fn owner_available(o: OwnerV) -> bool {
    !o.closed && o.queue.len() < o.capacity
}

/// Backpressure: an owner whose mailbox already holds `capacity` messages
/// answers any further send with `Busy` at once, untouched — the sender is
/// never blocked and nothing is queued beyond the bound.
pub proof fn lemma_backpressure(o: OwnerV, c: ShardCmdV)
    requires
        !o.closed,
        o.queue.len() >= o.capacity,
    ensures
        send_outcome(o, c) == (o, ShardResponseV::Busy),
{
}

/// Sequential consistency per shard: storing twice under one key and then
/// reading it, awaiting each reply before sending the next, yields the
/// second value — each command is fully applied before the next is
/// dequeued.
pub proof fn lemma_sequential_consistency(o: OwnerV, k: Seq<char>, a: Seq<char>, b: Seq<char>)
    requires
        crate::keys_unique(o.entries),
        !o.closed,
        o.capacity > 0,
        o.queue.len() == 0,
    ensures
        ({
            let first = send_outcome(o, ShardCmdV::Put { key: k, value: a });
            let second = send_outcome(first.0, ShardCmdV::Put { key: k, value: b });
            let third = send_outcome(second.0, ShardCmdV::Get { key: k });
            first.1 == ShardResponseV::Done && second.1 == ShardResponseV::Done && third.1
                == ShardResponseV::Value(Some(b))
        }),
{
    let first = send_outcome(o, ShardCmdV::Put { key: k, value: a });
    let second = send_outcome(first.0, ShardCmdV::Put { key: k, value: b });
    let third = send_outcome(second.0, ShardCmdV::Get { key: k });
    assert(entries_after_queue(o.entries, o.queue) == o.entries);
    assert(first.0.entries == entries_set(o.entries, k, a));
    crate::storage::lemma_entries_set_map(o.entries, k, a);
    assert(entries_after_queue(first.0.entries, first.0.queue) == first.0.entries);
    crate::storage::lemma_entries_set_map(first.0.entries, k, b);
    assert(second.0.entries == entries_set(first.0.entries, k, b));
    assert(entries_after_queue(second.0.entries, second.0.queue) == second.0.entries);
    assert(map_of(second.0.entries) =~= map_of(first.0.entries).insert(k, b));
    assert(map_of(second.0.entries).contains_key(k));
    assert(map_of(second.0.entries)[k] == b);
}

impl Shard {
    /// Sends one command to the owner this handle addresses, through its
    /// bounded mailbox: `Busy` at once when the mailbox is full, a failure
    /// when it is closed, and otherwise the command's own reply once the
    /// owner has drained everything ahead of it. Owners other than the
    /// addressed one are left untouched.
    pub fn send(&self, owners: &mut Vec<StorageOwner>, cmd: ShardCmd) -> (r: ShardResponse)
        requires
            self@.node < old(owners)@.len(),
            old(owners)@[self@.node as int].wf(),
        ensures
            final(owners)@.len() == old(owners)@.len(),
            final(owners)@[self@.node as int].wf(),
            forall|k: int|
                0 <= k < old(owners)@.len() && k != self@.node ==> final(owners)@[k] == old(
                    owners,
                )@[k],
            final(owners)@[self@.node as int]@ == send_outcome(
                old(owners)@[self@.node as int]@,
                cmd@,
            ).0,
            r@ == send_outcome(old(owners)@[self@.node as int]@, cmd@).1,
    {
        let o = &mut owners[self.node];
        o.send_cmd(cmd)
    }
}

} // verus!
