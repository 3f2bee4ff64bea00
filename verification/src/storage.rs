//! The storage owner: exclusive owner of one shard's key-value map.
//!
//! The map is kept as a vector of key/value pairs with pairwise-distinct
//! keys; its mathematical reading is the `Map<Seq<char>, Seq<char>>` built
//! from those pairs. Commands are applied one at a time, each fully applied
//! before the next is looked at.

use vstd::prelude::*;

verus! {

/// A command addressed to a storage owner.
#[derive(Debug, Clone)]
pub enum StorageCmd {
    Get { key: String },
    Put { key: String, value: String },
    Delete { key: String },
    List,
}

/// A storage owner's reply to one command.
#[derive(Debug, Clone)]
pub enum StorageResponse {
    List(Option<Vec<String>>),
    Value(Option<String>),
    Done,
}

/// One shard's backing store: a name and the key-value pairs it owns.
#[derive(Debug)]
pub struct Storage {
    pub name: String,
    pub data: Vec<(String, String)>,
}

/// The mathematical entries of a storage: the key/value pairs as sequences
/// of characters, in insertion order.
pub open spec fn entries_view(data: Seq<(String, String)>) -> Seq<(Seq<char>, Seq<char>)> {
    data.map_values(|p: (String, String)| (p.0@, p.1@))
}

/// The map read of a sequence of entries; a later pair overrides an earlier
/// one with the same key.
pub open spec fn map_of(entries: Seq<(Seq<char>, Seq<char>)>) -> Map<Seq<char>, Seq<char>>
    decreases entries.len(),
{
    if entries.len() == 0 {
        Map::empty()
    } else {
        map_of(entries.drop_last()).insert(entries.last().0, entries.last().1)
    }
}

/// The keys of a sequence of entries, in order.
pub open spec fn keys_of(entries: Seq<(Seq<char>, Seq<char>)>) -> Seq<Seq<char>> {
    entries.map_values(|p: (Seq<char>, Seq<char>)| p.0)
}

/// The position of the first entry holding key `k`; the length when none
/// does.
pub open spec fn key_index(entries: Seq<(Seq<char>, Seq<char>)>, k: Seq<char>) -> int
    decreases entries.len(),
{
    if entries.len() == 0 {
        0int
    } else if entries[0].0 == k {
        0int
    } else {
        1 + key_index(entries.drop_first(), k)
    }
}

/// `key_index` lies in bounds, everything before it holds another key, and
/// the entry at it (when in range) holds `k`.
pub proof fn lemma_key_index(entries: Seq<(Seq<char>, Seq<char>)>, k: Seq<char>)
    ensures
        0 <= key_index(entries, k) <= entries.len(),
        forall|j: int| 0 <= j < key_index(entries, k) ==> (#[trigger] entries[j]).0 != k,
        key_index(entries, k) < entries.len() ==> entries[key_index(entries, k)].0 == k,
    decreases entries.len(),
{
    if entries.len() > 0 && entries[0].0 != k {
        lemma_key_index(entries.drop_first(), k);
        let f = key_index(entries, k);
        assert forall|j: int| 0 <= j < f implies (#[trigger] entries[j]).0 != k by {
            if j > 0 {
                assert(entries.drop_first()[j - 1] == entries[j]);
            }
        }
        if f < entries.len() {
            assert(entries.drop_first()[f - 1] == entries[f]);
        }
    }
}

/// The position `key_index` names is the only one with its properties.
pub proof fn lemma_key_index_is(entries: Seq<(Seq<char>, Seq<char>)>, k: Seq<char>, i: int)
    requires
        0 <= i <= entries.len(),
        forall|j: int| 0 <= j < i ==> (#[trigger] entries[j]).0 != k,
        i < entries.len() ==> entries[i].0 == k,
    ensures
        key_index(entries, k) == i,
{
    lemma_key_index(entries, k);
    let f = key_index(entries, k);
    if f < i {
        assert(entries[f].0 != k);
    }
    if i < f {
        assert(entries[i].0 != k);
    }
}

/// The entries after storing `v` under `k`: the old entry for `k`, if any,
/// gives way, and the pair joins the back.
pub open spec fn entries_set(
    entries: Seq<(Seq<char>, Seq<char>)>,
    k: Seq<char>,
    v: Seq<char>,
) -> Seq<(Seq<char>, Seq<char>)> {
    if key_index(entries, k) < entries.len() {
        entries.remove(key_index(entries, k)).push((k, v))
    } else {
        entries.push((k, v))
    }
}

/// The entries after deleting `k`: its entry drops out, if there was one.
pub open spec fn entries_delete(entries: Seq<(Seq<char>, Seq<char>)>, k: Seq<char>) -> Seq<
    (Seq<char>, Seq<char>),
> {
    if key_index(entries, k) < entries.len() {
        entries.remove(key_index(entries, k))
    } else {
        entries
    }
}

/// `map_of` holds a key exactly when some entry holds it.
pub proof fn lemma_map_of_contains(entries: Seq<(Seq<char>, Seq<char>)>, k: Seq<char>)
    ensures
        map_of(entries).dom().contains(k) <==> (exists|i: int|
            0 <= i < entries.len() && (#[trigger] entries[i]).0 == k),
    decreases entries.len(),
{
    if entries.len() > 0 {
        lemma_map_of_contains(entries.drop_last(), k);
        if k == entries.last().0 {
            assert(entries[entries.len() - 1].0 == k);
        } else {
            if exists|i: int| 0 <= i < entries.len() && (#[trigger] entries[i]).0 == k {
                let i = choose|i: int| 0 <= i < entries.len() && (#[trigger] entries[i]).0 == k;
                assert(i < entries.len() - 1);
                assert(entries.drop_last()[i].0 == k);
            }
            if exists|i: int|
                0 <= i < entries.drop_last().len() && (#[trigger] entries.drop_last()[i]).0 == k {
                let i = choose|i: int|
                    0 <= i < entries.drop_last().len() && (#[trigger] entries.drop_last()[i]).0
                        == k;
                assert(entries[i].0 == k);
            }
        }
    }
}

/// Dropping the last entry keeps the keys pairwise distinct.
proof fn lemma_unique_drop_last(entries: Seq<(Seq<char>, Seq<char>)>)
    requires
        crate::keys_unique(entries),
        entries.len() > 0,
    ensures
        crate::keys_unique(entries.drop_last()),
{
    assert forall|i: int, j: int|
        0 <= i < j < entries.drop_last().len() implies (#[trigger] entries.drop_last()[i]).0 != (
    #[trigger] entries.drop_last()[j]).0 by {
        assert(entries[i].0 != entries[j].0);
    }
}

/// When the keys are pairwise distinct, the map agrees with every entry.
pub proof fn lemma_map_of_index(entries: Seq<(Seq<char>, Seq<char>)>, i: int)
    requires
        crate::keys_unique(entries),
        0 <= i < entries.len(),
    ensures
        map_of(entries).contains_pair(entries[i].0, entries[i].1),
    decreases entries.len(),
{
    if i == entries.len() - 1 {
    } else {
        lemma_unique_drop_last(entries);
        lemma_map_of_index(entries.drop_last(), i);
        assert(entries.drop_last()[i] == entries[i]);
        assert(entries[i].0 != entries[entries.len() - 1].0);
    }
}

/// Appending a pair with a fresh key keeps the keys distinct and inserts
/// exactly that pair into the map.
pub proof fn lemma_push_key(entries: Seq<(Seq<char>, Seq<char>)>, k: Seq<char>, v: Seq<char>)
    requires
        crate::keys_unique(entries),
        forall|i: int| 0 <= i < entries.len() ==> (#[trigger] entries[i]).0 != k,
    ensures
        crate::keys_unique(entries.push((k, v))),
        map_of(entries.push((k, v))) == map_of(entries).insert(k, v),
{
    let s = entries.push((k, v));
    assert(s.drop_last() =~= entries);
    assert forall|a: int, b: int| 0 <= a < b < s.len() implies (#[trigger] s[a]).0 != (
    #[trigger] s[b]).0 by {
        if b < s.len() - 1 {
            assert(s[a] == entries[a]);
            assert(s[b] == entries[b]);
        } else {
            assert(s[a] == entries[a]);
            assert(entries[a].0 != k);
        }
    }
}

/// Removing the entry at `i` removes exactly its key from the map, provided
/// the keys are pairwise distinct.
pub proof fn lemma_remove_key(entries: Seq<(Seq<char>, Seq<char>)>, i: int)
    requires
        crate::keys_unique(entries),
        0 <= i < entries.len(),
    ensures
        crate::keys_unique(entries.remove(i)),
        map_of(entries.remove(i)) =~= map_of(entries).remove(entries[i].0),
        forall|j: int|
            0 <= j < entries.remove(i).len() ==> (#[trigger] entries.remove(i)[j]).0
                != entries[i].0,
{
    let rest = entries.remove(i);
    assert forall|a: int, b: int| 0 <= a < b < rest.len() implies (#[trigger] rest[a]).0 != (
    #[trigger] rest[b]).0 by {
        let a0 = if a < i { a } else { a + 1 };
        let b0 = if b < i { b } else { b + 1 };
        assert(rest[a] == entries[a0]);
        assert(rest[b] == entries[b0]);
        assert(entries[a0].0 != entries[b0].0);
    }
    assert forall|j: int| 0 <= j < rest.len() implies (#[trigger] rest[j]).0 != entries[i].0 by {
        let j0 = if j < i { j } else { j + 1 };
        assert(rest[j] == entries[j0]);
        assert(entries[j0].0 != entries[i].0);
    }
    assert forall|k: Seq<char>| #[trigger]
        map_of(rest).dom().contains(k) implies map_of(entries).remove(
        entries[i].0,
    ).dom().contains(k) && map_of(rest)[k] == map_of(entries).remove(entries[i].0)[k] by {
        lemma_map_of_contains(rest, k);
        let j = choose|j: int| 0 <= j < rest.len() && (#[trigger] rest[j]).0 == k;
        let j0 = if j < i { j } else { j + 1 };
        assert(rest[j] == entries[j0]);
        lemma_map_of_contains(entries, k);
        lemma_map_of_index(rest, j);
        lemma_map_of_index(entries, j0);
        assert(k != entries[i].0);
    }
    assert forall|k: Seq<char>| #[trigger]
        map_of(entries).remove(entries[i].0).dom().contains(k) implies map_of(
        rest,
    ).dom().contains(k) by {
        lemma_map_of_contains(entries, k);
        let j = choose|j: int| 0 <= j < entries.len() && (#[trigger] entries[j]).0 == k;
        assert(j != i);
        let j1 = if j < i { j } else { j - 1 };
        assert(rest[j1] == entries[j]);
        lemma_map_of_contains(rest, k);
    }
}

impl Storage {
    /// The entries as mathematical sequences, in order.
    pub open spec fn entries(&self) -> Seq<(Seq<char>, Seq<char>)> {
        entries_view(self.data@)
    }

    /// The map this storage holds.
    pub open spec fn map(&self) -> Map<Seq<char>, Seq<char>> {
        map_of(self.entries())
    }

    /// Well-formed: no key appears twice.
    pub open spec fn wf(&self) -> bool {
        crate::keys_unique(self.entries())
    }

    /// Creates an empty storage with the given name.
    pub fn new(name: String) -> (r: Storage)
        ensures
            r.wf(),
            r.name@ == name@,
            r.entries() =~= Seq::<(Seq<char>, Seq<char>)>::empty(),
            r.map() =~= Map::<Seq<char>, Seq<char>>::empty(),
    {
        Storage { name, data: Vec::new() }
    }

    /// The index of the entry holding `key`, if any.
    fn find(&self, key: &String) -> (r: Option<usize>)
        ensures
            match r {
                Some(i) => i < self.data@.len() && self.entries()[i as int].0 == key@ && i as int
                    == key_index(self.entries(), key@),
                None => key_index(self.entries(), key@) == self.entries().len() && forall|i: int|
                    0 <= i < self.entries().len() ==> (#[trigger] self.entries()[i]).0 != key@,
            },
    {
        let n = self.data.len();
        let mut i: usize = 0;
        while i < n
            invariant
                n == self.data@.len(),
                i <= n,
                forall|j: int| 0 <= j < i ==> (#[trigger] self.entries()[j]).0 != key@,
            decreases n - i,
        {
            if self.data[i].0 == *key {
                proof {
                    lemma_key_index_is(self.entries(), key@, i as int);
                }
                return Some(i);
            }
            assert(self.entries()[i as int].0 != key@);
            i = i + 1;
        }
        proof {
            lemma_key_index_is(self.entries(), key@, n as int);
        }
        None
    }

}

/// The storage backend interface: the Get/Set/Delete/List contract every
/// shard backend offers. The in-memory map owner is the implementing
/// variant today; a new backend implements the same contract.
pub trait StorageTrait: Sized {
    /// The entries the backend holds, in its own order.
    spec fn store(&self) -> Seq<(Seq<char>, Seq<char>)>;

    /// The backend's stable name.
    spec fn store_name(&self) -> Seq<char>;

    /// The backend's internal invariant.
    spec fn store_inv(&self) -> bool;

    /// The backend's stable name, as the ring and the router read it.
    fn get_name(&self) -> (r: String)
        ensures
            r@ == self.store_name(),
    ;

    /// Reads the value stored under `key`, or `None` when the key is
    /// absent.
    fn get(&self, key: String) -> (r: Option<String>)
        requires
            self.store_inv(),
        ensures
            match r {
                Some(v) => map_of(self.store()).contains_key(key@) && map_of(self.store())[key@]
                    == v@,
                None => !map_of(self.store()).contains_key(key@),
            },
    ;

    /// Stores `value` under `key`, overwriting any earlier value.
    fn set(&mut self, key: String, value: String)
        requires
            old(self).store_inv(),
        ensures
            final(self).store_inv(),
            final(self).store_name() == old(self).store_name(),
            final(self).store() == entries_set(old(self).store(), key@, value@),
            map_of(final(self).store()) =~= map_of(old(self).store()).insert(key@, value@),
    ;

    /// Removes `key`; absent keys are left alone without error.
    fn delete(&mut self, key: String)
        requires
            old(self).store_inv(),
        ensures
            final(self).store_inv(),
            final(self).store_name() == old(self).store_name(),
            final(self).store() == entries_delete(old(self).store(), key@),
            map_of(final(self).store()) =~= map_of(old(self).store()).remove(key@),
    ;

    /// A snapshot of all keys, in the backend's order.
    fn list(&self) -> (r: Vec<String>)
        ensures
            r@.map_values(|s: String| s@) =~= keys_of(self.store()),
    ;
}

impl StorageTrait for Storage {
    open spec fn store(&self) -> Seq<(Seq<char>, Seq<char>)> {
        self.entries()
    }

    open spec fn store_name(&self) -> Seq<char> {
        self.name@
    }

    open spec fn store_inv(&self) -> bool {
        self.wf()
    }

    fn get_name(&self) -> (r: String) {
        self.name.clone()
    }

    fn get(&self, key: String) -> (r: Option<String>) {
        match self.find(&key) {
            Some(i) => {
                proof {
                    lemma_map_of_index(self.entries(), i as int);
                }
                Some(self.data[i].1.clone())
            },
            None => {
                proof {
                    lemma_map_of_contains(self.entries(), key@);
                }
                None
            },
        }
    }

    fn set(&mut self, key: String, value: String) {
        let ghost pre = *self;
        match self.find(&key) {
            Some(i) => {
                self.data.remove(i);
                proof {
                    assert(self.entries() =~= pre.entries().remove(i as int));
                    lemma_remove_key(pre.entries(), i as int);
                    assert(pre.entries()[i as int].0 == key@);
                }
            },
            None => {},
        }
        let ghost mid = *self;
        self.data.push((key, value));
        proof {
            assert(self.entries() =~= mid.entries().push((key@, value@)));
            lemma_push_key(mid.entries(), key@, value@);
        }
    }

    fn delete(&mut self, key: String) {
        let ghost pre = *self;
        match self.find(&key) {
            Some(i) => {
                self.data.remove(i);
                proof {
                    assert(self.entries() =~= pre.entries().remove(i as int));
                    lemma_remove_key(pre.entries(), i as int);
                    assert(pre.entries()[i as int].0 == key@);
                }
            },
            None => {
                proof {
                    lemma_map_of_contains(pre.entries(), key@);
                    assert(self.map() =~= self.map().remove(key@));
                }
            },
        }
    }

    fn list(&self) -> (r: Vec<String>) {
        let n = self.data.len();
        let mut r: Vec<String> = Vec::new();
        let mut i: usize = 0;
        while i < n
            invariant
                n == self.data@.len(),
                i <= n,
                r@.len() == i,
                forall|j: int| 0 <= j < i ==> (#[trigger] r@[j])@ == self.entries()[j].0,
            decreases n - i,
        {
            r.push(self.data[i].0.clone());
            i = i + 1;
        }
        r
    }
}

/// Storing reads back as a map insertion, and keeps the keys distinct.
pub proof fn lemma_entries_set_map(entries: Seq<(Seq<char>, Seq<char>)>, k: Seq<char>, v: Seq<char>)
    requires
        crate::keys_unique(entries),
    ensures
        crate::keys_unique(entries_set(entries, k, v)),
        map_of(entries_set(entries, k, v)) =~= map_of(entries).insert(k, v),
{
    lemma_key_index(entries, k);
    let i = key_index(entries, k);
    if i < entries.len() {
        lemma_remove_key(entries, i);
        lemma_push_key(entries.remove(i), k, v);
    } else {
        lemma_push_key(entries, k, v);
    }
}

/// Deleting reads back as a map removal, and keeps the keys distinct.
pub proof fn lemma_entries_delete_map(entries: Seq<(Seq<char>, Seq<char>)>, k: Seq<char>)
    requires
        crate::keys_unique(entries),
    ensures
        crate::keys_unique(entries_delete(entries, k)),
        map_of(entries_delete(entries, k)) =~= map_of(entries).remove(k),
{
    lemma_key_index(entries, k);
    let i = key_index(entries, k);
    if i < entries.len() {
        lemma_remove_key(entries, i);
    } else {
        lemma_map_of_contains(entries, k);
        assert(map_of(entries) =~= map_of(entries).remove(k));
    }
}

/// Applies one command to a store's entries: its exact effect.
pub open spec fn storage_entries_after(
    entries: Seq<(Seq<char>, Seq<char>)>,
    cmd: StorageCmd,
) -> Seq<(Seq<char>, Seq<char>)> {
    match cmd {
        StorageCmd::Get { .. } => entries,
        StorageCmd::Put { key, value } => entries_set(entries, key@, value@),
        StorageCmd::Delete { key } => entries_delete(entries, key@),
        StorageCmd::List => entries,
    }
}

/// Applies one command to a storage map: its effect on the map.
pub open spec fn storage_map_after(
    m: Map<Seq<char>, Seq<char>>,
    cmd: StorageCmd,
) -> Map<Seq<char>, Seq<char>> {
    match cmd {
        StorageCmd::Get { .. } => m,
        StorageCmd::Put { key, value } => m.insert(key@, value@),
        StorageCmd::Delete { key } => m.remove(key@),
        StorageCmd::List => m,
    }
}

/// The reply one command earns, read against the storage it is applied to.
/// A `List` reply carries the keys in storage order.
pub open spec fn storage_reply_of(s: Storage, cmd: StorageCmd, r: StorageResponse) -> bool {
    match cmd {
        StorageCmd::Get { key } => match r {
            StorageResponse::Value(Some(v)) => s.map().contains_key(key@) && s.map()[key@] == v@,
            StorageResponse::Value(None) => !s.map().contains_key(key@),
            _ => false,
        },
        StorageCmd::Put { .. } => r is Done,
        StorageCmd::Delete { .. } => r is Done,
        StorageCmd::List => match r {
            StorageResponse::List(Some(ks)) => ks@.map_values(|x: String| x@) =~= keys_of(
                s.entries(),
            ),
            _ => false,
        },
    }
}

/// One step of the storage owner's loop: applies a single command to the
/// store and produces the reply that flows back through the reply slot.
pub fn handle_storage_command(storage: &mut Storage, cmd: StorageCmd) -> (r: StorageResponse)
    requires
        old(storage).wf(),
    ensures
        final(storage).wf(),
        final(storage).name@ == old(storage).name@,
        final(storage).entries() == storage_entries_after(old(storage).entries(), cmd),
        final(storage).map() =~= storage_map_after(old(storage).map(), cmd),
        storage_reply_of(*old(storage), cmd, r),
{
    match cmd {
        StorageCmd::Get { key } => {
            let value = storage.get(key);
            StorageResponse::Value(value)
        },
        StorageCmd::Put { key, value } => {
            storage.set(key, value);
            StorageResponse::Done
        },
        StorageCmd::Delete { key } => {
            storage.delete(key);
            StorageResponse::Done
        },
        StorageCmd::List => {
            let keys = storage.list();
            StorageResponse::List(Some(keys))
        },
    }
}

} // verus!
