//! The consistent-hash ring: maps an arbitrary key to one shard handle.
//!
//! The ring is an ordered set of (hash, shard) entries, kept as a vector
//! sorted by strictly increasing 64-bit hash. Each physical shard occupies
//! `replicas` virtual positions, one for every hash of `"{name}_{i}"`. A key
//! resolves to the first entry whose hash is at least the key's own hash,
//! wrapping around to the smallest entry.

use vstd::prelude::*;

use crate::shard::{Shard, ShardV};

verus! {

/// The 64-bit hash that the standard hasher assigns to a string. One value
/// of characters gives one hash, on every call.
pub uninterp spec fn hash64_of(s: Seq<char>) -> u64;

/// Relies on std's `DefaultHasher`: hashers made by `DefaultHasher::new`
/// all hash equal input to equal output, so the digest of a string is a
/// function of its characters alone.
#[verifier::external_body]
fn default_hash64(item: &str) -> (r: u64)
    ensures
        r == hash64_of(item@),
{
    let mut hasher = std::collections::hash_map::DefaultHasher::new();
    std::hash::Hash::hash(item, &mut hasher);
    std::hash::Hasher::finish(&hasher)
}

/// Hashes a key onto the ring's 64-bit hash space. Placement and lookup use
/// this same function; that they agree is what makes the ring work.
pub fn hash64(key: &str) -> (r: u64)
    ensures
        r == hash64_of(key@),
{
    default_hash64(key)
}

/// The decimal digits of `n`, most significant first.
pub open spec fn decimal_of(n: nat) -> Seq<char>
    decreases n,
{
    if n < 10 {
        seq![digit_char(n)]
    } else {
        decimal_of(n / 10).push(digit_char(n % 10))
    }
}

/// The character for one decimal digit.
pub open spec fn digit_char(d: nat) -> char {
    if d == 0 {
        '0'
    } else if d == 1 {
        '1'
    } else if d == 2 {
        '2'
    } else if d == 3 {
        '3'
    } else if d == 4 {
        '4'
    } else if d == 5 {
        '5'
    } else if d == 6 {
        '6'
    } else if d == 7 {
        '7'
    } else if d == 8 {
        '8'
    } else {
        '9'
    }
}

/// The one-character string for a digit.
fn digit_str(d: usize) -> (r: &'static str)
    requires
        d < 10,
    ensures
        r@ =~= seq![digit_char(d as nat)],
{
    proof {
        reveal_strlit("0");
        reveal_strlit("1");
        reveal_strlit("2");
        reveal_strlit("3");
        reveal_strlit("4");
        reveal_strlit("5");
        reveal_strlit("6");
        reveal_strlit("7");
        reveal_strlit("8");
        reveal_strlit("9");
    }
    if d == 0 {
        "0"
    } else if d == 1 {
        "1"
    } else if d == 2 {
        "2"
    } else if d == 3 {
        "3"
    } else if d == 4 {
        "4"
    } else if d == 5 {
        "5"
    } else if d == 6 {
        "6"
    } else if d == 7 {
        "7"
    } else if d == 8 {
        "8"
    } else {
        "9"
    }
}

/// Appends the decimal digits of `n` to `s`.
fn push_decimal(s: &mut String, n: usize)
    ensures
        final(s)@ == old(s)@ + decimal_of(n as nat),
    decreases n,
{
    if n < 10 {
        s.append(digit_str(n));
    } else {
        push_decimal(s, n / 10);
        s.append(digit_str(n % 10));
        proof {
            assert(old(s)@ + decimal_of((n / 10) as nat) + seq![digit_char((n % 10) as nat)]
                =~= old(s)@ + decimal_of(n as nat));
        }
    }
}

/// The placement key of one virtual position: the shard's name, an
/// underscore, and the position number in decimal.
pub open spec fn vnode_key_of(name: Seq<char>, i: nat) -> Seq<char> {
    name + seq!['_'] + decimal_of(i)
}

/// The ring hash of one virtual position of a shard.
pub open spec fn vnode_hash(name: Seq<char>, i: nat) -> u64 {
    hash64_of(vnode_key_of(name, i))
}

/// Builds the placement key `"{name}_{i}"` of one virtual position.
fn vnode_key(name: &str, i: usize) -> (r: String)
    ensures
        r@ == vnode_key_of(name@, i as nat),
{
    let mut s = name.to_owned();
    s.append("_");
    proof {
        reveal_strlit("_");
        assert(s@ =~= name@ + seq!['_']);
    }
    push_decimal(&mut s, i);
    proof {
        assert(s@ =~= vnode_key_of(name@, i as nat));
    }
    s
}

/// The mathematical reading of one ring entry.
pub struct RingEntryV {
    pub hash: u64,
    pub shard: ShardV,
}

/// One ring position: a 64-bit hash and the shard that owns it.
#[derive(Debug)]
pub struct RingEntry {
    pub hash: u64,
    pub shard: Shard,
}

impl View for RingEntry {
    type V = RingEntryV;

    open spec fn view(&self) -> RingEntryV {
        RingEntryV { hash: self.hash, shard: self.shard@ }
    }
}

impl Clone for RingEntry {
    fn clone(&self) -> (r: Self)
        ensures
            r@ == self@,
    {
        RingEntry { hash: self.hash, shard: self.shard.clone() }
    }
}

/// The entries of a ring as their mathematical readings, in ring order.
pub open spec fn ring_view(entries: Seq<RingEntry>) -> Seq<RingEntryV> {
    entries.map_values(|e: RingEntry| e@)
}

/// Entries stand in strictly increasing hash order, so each hash occurs at
/// most once.
pub open spec fn ring_sorted(s: Seq<RingEntryV>) -> bool {
    forall|i: int, j: int| 0 <= i < j < s.len() ==> s[i].hash < s[j].hash
}

/// The first position whose hash is at least `h`; the length when there is
/// none.
pub open spec fn first_geq(s: Seq<RingEntryV>, h: u64) -> int
    decreases s.len(),
{
    if s.len() == 0 {
        0int
    } else if s[0].hash >= h {
        0int
    } else {
        1 + first_geq(s.drop_first(), h)
    }
}

/// `first_geq` lies in bounds, everything before it hashes below `h`, and
/// the entry at it (when in range) hashes at least `h`.
pub proof fn lemma_first_geq(s: Seq<RingEntryV>, h: u64)
    ensures
        0 <= first_geq(s, h) <= s.len(),
        forall|k: int| 0 <= k < first_geq(s, h) ==> (#[trigger] s[k]).hash < h,
        first_geq(s, h) < s.len() ==> s[first_geq(s, h)].hash >= h,
    decreases s.len(),
{
    if s.len() > 0 && s[0].hash < h {
        lemma_first_geq(s.drop_first(), h);
        let f = first_geq(s, h);
        assert forall|k: int| 0 <= k < f implies (#[trigger] s[k]).hash < h by {
            if k > 0 {
                assert(s.drop_first()[k - 1] == s[k]);
            }
        }
        if f < s.len() {
            assert(s.drop_first()[f - 1] == s[f]);
        }
    }
}

/// The position `first_geq` names is the only one with its properties.
pub proof fn lemma_first_geq_is(s: Seq<RingEntryV>, h: u64, i: int)
    requires
        0 <= i <= s.len(),
        forall|k: int| 0 <= k < i ==> (#[trigger] s[k]).hash < h,
        i < s.len() ==> s[i].hash >= h,
    ensures
        first_geq(s, h) == i,
{
    lemma_first_geq(s, h);
    let f = first_geq(s, h);
    if f < i {
        assert(s[f].hash < h);
    }
    if i < f {
        assert(s[i].hash < h);
    }
}

/// The shard a hash resolves to on a non-empty ring: the first entry at or
/// past the hash, wrapping to the smallest entry.
pub open spec fn ring_lookup(s: Seq<RingEntryV>, h: u64) -> ShardV {
    if first_geq(s, h) < s.len() {
        s[first_geq(s, h)].shard
    } else {
        s[0].shard
    }
}

/// The consistent-hash ring: an ordered set of (hash, shard) entries and
/// the number of virtual positions each physical shard occupies.
#[derive(Debug)]
pub struct HashRing {
    pub entries: Vec<RingEntry>,
    pub replicas: usize,
}

impl View for HashRing {
    type V = Seq<RingEntryV>;

    open spec fn view(&self) -> Seq<RingEntryV> {
        ring_view(self.entries@)
    }
}

impl HashRing {
    /// Well-formed: the entries stand in strictly increasing hash order.
    pub open spec fn wf(&self) -> bool {
        ring_sorted(self@)
    }

    /// Makes an empty ring placing `replicas` virtual positions per shard.
    pub fn new(replicas: usize) -> (r: HashRing)
        ensures
            r.wf(),
            r@ =~= Seq::<RingEntryV>::empty(),
            r.replicas == replicas,
    {
        HashRing { entries: Vec::new(), replicas }
    }

    /// The first position whose hash is at least `h`, or the entry count.
    fn position_geq(&self, h: u64) -> (j: usize)
        requires
            self.wf(),
        ensures
            j as int == first_geq(self@, h),
            j <= self.entries@.len(),
    {
        let n = self.entries.len();
        let mut i: usize = 0;
        while i < n
            invariant
                n == self.entries@.len(),
                n == self@.len(),
                i <= n,
                forall|k: int| 0 <= k < i ==> (#[trigger] self@[k]).hash < h,
            decreases n - i,
        {
            if self.entries[i].hash >= h {
                proof {
                    lemma_first_geq_is(self@, h, i as int);
                }
                return i;
            }
            assert(self@[i as int].hash < h);
            i = i + 1;
        }
        proof {
            lemma_first_geq_is(self@, h, n as int);
        }
        n
    }
}

/// One entry placed into a sorted entry sequence: overwrites the entry with
/// the same hash, or takes its place in the order.
pub open spec fn insert_one(s: Seq<RingEntryV>, h: u64, sh: ShardV) -> Seq<RingEntryV> {
    let j = first_geq(s, h);
    if j < s.len() && s[j].hash == h {
        s.update(j, RingEntryV { hash: h, shard: sh })
    } else {
        s.insert(j, RingEntryV { hash: h, shard: sh })
    }
}

/// One hash removed from a sorted entry sequence: drops the entry with that
/// exact hash, or leaves the sequence alone.
pub open spec fn remove_one(s: Seq<RingEntryV>, h: u64) -> Seq<RingEntryV> {
    let j = first_geq(s, h);
    if j < s.len() && s[j].hash == h {
        s.remove(j)
    } else {
        s
    }
}

/// `insert_one` keeps the entries sorted, and its result holds exactly the
/// old entries with other hashes plus the new one.
pub proof fn lemma_insert_one(s: Seq<RingEntryV>, h: u64, sh: ShardV)
    requires
        ring_sorted(s),
    ensures
        ring_sorted(insert_one(s, h, sh)),
        forall|e: RingEntryV| #[trigger]
            insert_one(s, h, sh).contains(e) <==> ((s.contains(e) && e.hash != h) || e
                == (RingEntryV { hash: h, shard: sh })),
{
    lemma_first_geq(s, h);
    let j = first_geq(s, h);
    let e0 = RingEntryV { hash: h, shard: sh };
    let t = insert_one(s, h, sh);
    if j < s.len() && s[j].hash == h {
        assert forall|a: int, b: int| 0 <= a < b < t.len() implies (#[trigger] t[a]).hash < (
        #[trigger] t[b]).hash by {
            assert(s[a].hash < s[b].hash);
        }
        assert forall|e: RingEntryV| #[trigger] t.contains(e) implies ((s.contains(e) && e.hash
            != h) || e == e0) by {
            let a = choose|a: int| 0 <= a < t.len() && t[a] == e;
            if a != j {
                assert(s[a] == e);
                assert(if a < j {
                    s[a].hash < s[j].hash
                } else {
                    s[j].hash < s[a].hash
                });
            }
        }
        assert forall|e: RingEntryV| ((s.contains(e) && e.hash != h) || e == e0) implies
            #[trigger] t.contains(e) by {
            if e == e0 {
                assert(t[j] == e);
            } else {
                let a = choose|a: int| 0 <= a < s.len() && s[a] == e;
                assert(a != j);
                assert(t[a] == e);
            }
        }
    } else {
        assert forall|e: RingEntryV| 0 <= 0 implies !(s.contains(e) && e.hash == h) by {
            if s.contains(e) && e.hash == h {
                let a = choose|a: int| 0 <= a < s.len() && s[a] == e;
                if a < j {
                    assert(s[a].hash < h);
                } else {
                    assert(j < s.len());
                    assert(s[j].hash >= h);
                    assert(s[j].hash != h);
                    if a > j {
                        assert(s[j].hash < s[a].hash);
                        assert(s[a].hash > h);
                    }
                }
            }
        }
        assert forall|a: int, b: int| 0 <= a < b < t.len() implies (#[trigger] t[a]).hash < (
        #[trigger] t[b]).hash by {
            if b < j {
                assert(t[a] == s[a] && t[b] == s[b]);
            } else if a > j {
                assert(t[a] == s[a - 1] && t[b] == s[b - 1]);
            } else if a < j && b == j {
                assert(t[a] == s[a]);
                assert(s[a].hash < h);
            } else if a == j && b > j {
                assert(t[b] == s[b - 1]);
                assert(s[b - 1].hash >= h);
                assert(s[b - 1].hash != h);
            } else {
                assert(a < j && b > j);
                assert(t[a] == s[a] && t[b] == s[b - 1]);
                assert(s[a].hash < h);
                assert(s[b - 1].hash >= h);
            }
        }
        assert forall|e: RingEntryV| #[trigger] t.contains(e) implies ((s.contains(e) && e.hash
            != h) || e == e0) by {
            let a = choose|a: int| 0 <= a < t.len() && t[a] == e;
            if a < j {
                assert(s[a] == e);
            } else if a > j {
                assert(s[a - 1] == e);
            }
        }
        assert forall|e: RingEntryV| ((s.contains(e) && e.hash != h) || e == e0) implies
            #[trigger] t.contains(e) by {
            if e == e0 {
                assert(t[j] == e);
            } else {
                let a = choose|a: int| 0 <= a < s.len() && s[a] == e;
                if a < j {
                    assert(t[a] == e);
                } else {
                    assert(t[a + 1] == e);
                }
            }
        }
    }
}

/// `remove_one` keeps the entries sorted, and its result holds exactly the
/// old entries whose hash differs.
pub proof fn lemma_remove_one(s: Seq<RingEntryV>, h: u64)
    requires
        ring_sorted(s),
    ensures
        ring_sorted(remove_one(s, h)),
        forall|e: RingEntryV| #[trigger]
            remove_one(s, h).contains(e) <==> (s.contains(e) && e.hash != h),
{
    lemma_first_geq(s, h);
    let j = first_geq(s, h);
    let t = remove_one(s, h);
    if j < s.len() && s[j].hash == h {
        assert forall|a: int, b: int| 0 <= a < b < t.len() implies (#[trigger] t[a]).hash < (
        #[trigger] t[b]).hash by {
            let a0 = if a < j {
                a
            } else {
                a + 1
            };
            let b0 = if b < j {
                b
            } else {
                b + 1
            };
            assert(t[a] == s[a0] && t[b] == s[b0]);
        }
        assert forall|e: RingEntryV| #[trigger] t.contains(e) implies (s.contains(e) && e.hash
            != h) by {
            let a = choose|a: int| 0 <= a < t.len() && t[a] == e;
            let a0 = if a < j {
                a
            } else {
                a + 1
            };
            assert(s[a0] == e);
            assert(if a0 < j {
                s[a0].hash < s[j].hash
            } else {
                s[j].hash < s[a0].hash
            });
        }
        assert forall|e: RingEntryV| (s.contains(e) && e.hash != h) implies #[trigger] t.contains(
            e,
        ) by {
            let a = choose|a: int| 0 <= a < s.len() && s[a] == e;
            assert(a != j);
            if a < j {
                assert(t[a] == e);
            } else {
                assert(t[a - 1] == e);
            }
        }
    } else {
        assert forall|e: RingEntryV| #[trigger] t.contains(e) implies (s.contains(e) && e.hash
            != h) by {
            let a = choose|a: int| 0 <= a < s.len() && s[a] == e;
            if a < j {
                assert(s[a].hash < h);
            } else {
                assert(s[j].hash >= h && s[j].hash != h);
                if a > j {
                    assert(s[j].hash < s[a].hash);
                }
            }
        }
    }
}

/// All of a shard's virtual positions placed into an entry sequence, for
/// positions `0` up to `r`.
pub open spec fn insert_vnodes(s: Seq<RingEntryV>, sh: ShardV, r: nat) -> Seq<RingEntryV>
    decreases r,
{
    if r == 0 {
        s
    } else {
        insert_one(insert_vnodes(s, sh, (r - 1) as nat), vnode_hash(sh.name, (r - 1) as nat), sh)
    }
}

/// All of a shard's virtual positions removed from an entry sequence, for
/// positions `0` up to `r`.
pub open spec fn remove_vnodes(s: Seq<RingEntryV>, name: Seq<char>, r: nat) -> Seq<RingEntryV>
    decreases r,
{
    if r == 0 {
        s
    } else {
        remove_one(remove_vnodes(s, name, (r - 1) as nat), vnode_hash(name, (r - 1) as nat))
    }
}

impl HashRing {
    /// Places one entry, overwriting the entry with an identical hash.
    fn insert_entry(&mut self, h: u64, node: Shard)
        requires
            old(self).wf(),
        ensures
            final(self).wf(),
            final(self)@ == insert_one(old(self)@, h, node@),
            final(self).replicas == old(self).replicas,
    {
        proof {
            lemma_first_geq(self@, h);
            lemma_insert_one(self@, h, node@);
        }
        let j = self.position_geq(h);
        if j < self.entries.len() && self.entries[j].hash == h {
            self.entries[j] = RingEntry { hash: h, shard: node };
            proof {
                assert(self@ =~= insert_one(old(self)@, h, node@));
            }
        } else {
            self.entries.insert(j, RingEntry { hash: h, shard: node });
            proof {
                assert(self@ =~= insert_one(old(self)@, h, node@));
            }
        }
    }

    /// Drops the entry with exactly this hash, if any.
    fn remove_entry(&mut self, h: u64)
        requires
            old(self).wf(),
        ensures
            final(self).wf(),
            final(self)@ == remove_one(old(self)@, h),
            final(self).replicas == old(self).replicas,
    {
        proof {
            lemma_first_geq(self@, h);
            lemma_remove_one(self@, h);
        }
        let j = self.position_geq(h);
        if j < self.entries.len() && self.entries[j].hash == h {
            self.entries.remove(j);
            proof {
                assert(self@ =~= remove_one(old(self)@, h));
            }
        } else {
            proof {
                assert(self@ =~= remove_one(old(self)@, h));
            }
        }
    }

}

/// The names a sequence of strings holds, as a set.
pub open spec fn names_set(q: Seq<String>) -> Set<Seq<char>> {
    Set::new(|n: Seq<char>| exists|j: int| 0 <= j < q.len() && (#[trigger] q[j])@ == n)
}

/// Appending one string adds exactly its characters to the name set.
proof fn lemma_names_set_push(q: Seq<String>, x: String)
    ensures
        names_set(q.push(x)) =~= names_set(q).insert(x@),
{
    assert forall|nm: Seq<char>| #[trigger]
        names_set(q.push(x)).contains(nm) implies names_set(q).insert(x@).contains(nm) by {
        let j = choose|j: int| 0 <= j < q.push(x).len() && (#[trigger] q.push(x)[j])@ == nm;
        if j < q.len() {
            assert(q[j]@ == nm);
        }
    }
    assert forall|nm: Seq<char>| #[trigger]
        names_set(q).insert(x@).contains(nm) implies names_set(q.push(x)).contains(nm) by {
        if nm == x@ {
            assert(q.push(x)[q.len() as int]@ == nm);
        } else {
            let j = choose|j: int| 0 <= j < q.len() && (#[trigger] q[j])@ == nm;
            assert(q.push(x)[j]@ == nm);
        }
    }
}

/// The distinct shards of an entry sequence, each taken at its first
/// appearance, skipping names already in `seen`.
pub open spec fn dedup_shards(s: Seq<RingEntryV>, seen: Set<Seq<char>>) -> Seq<ShardV>
    decreases s.len(),
{
    if s.len() == 0 {
        Seq::<ShardV>::empty()
    } else if seen.contains(s[0].shard.name) {
        dedup_shards(s.drop_first(), seen)
    } else {
        seq![s[0].shard] + dedup_shards(s.drop_first(), seen.insert(s[0].shard.name))
    }
}

/// True when one of the strings reads `name`.
fn contains_name(seen: &Vec<String>, name: &String) -> (r: bool)
    ensures
        r == names_set(seen@).contains(name@),
{
    let n = seen.len();
    let mut i: usize = 0;
    while i < n
        invariant
            n == seen@.len(),
            i <= n,
            forall|j: int| 0 <= j < i ==> (#[trigger] seen@[j])@ != name@,
        decreases n - i,
    {
        if seen[i] == *name {
            return true;
        }
        i = i + 1;
    }
    false
}


/// The cluster interface: the membership and lookup contract the router
/// works against. The consistent-hash ring is the implementing variant
/// today; another placement scheme implements the same contract.
pub trait ClusterTrait: Sized {
    /// The entries the cluster holds, in ring order.
    spec fn ring(&self) -> Seq<RingEntryV>;

    /// The cluster's internal invariant.
    spec fn ring_inv(&self) -> bool;

    /// How many virtual positions each physical shard occupies.
    spec fn replica_count(&self) -> nat;

    /// True exactly when no shard occupies any position.
    fn is_empty(&self) -> (r: bool)
        ensures
            r == (self.ring().len() == 0),
    ;

    /// Adds a shard: places one entry for each of its virtual positions.
    /// Adding the same shard again overwrites the identical hash slots.
    fn add_node(&mut self, node: Shard)
        requires
            old(self).ring_inv(),
        ensures
            final(self).ring_inv(),
            final(self).ring() == insert_vnodes(
                old(self).ring(),
                node@,
                old(self).replica_count(),
            ),
            final(self).replica_count() == old(self).replica_count(),
    ;

    /// Removes a shard: recomputes the same hashes and drops those exact
    /// entries. Removing a shard never added is a no-op.
    fn remove_node(&mut self, node: Shard)
        requires
            old(self).ring_inv(),
        ensures
            final(self).ring_inv(),
            final(self).ring() == remove_vnodes(
                old(self).ring(),
                node@.name,
                old(self).replica_count(),
            ),
            final(self).replica_count() == old(self).replica_count(),
    ;

    /// Resolves a key to its owning shard. `None` exactly when the ring is
    /// empty; otherwise the shard of the first entry whose hash is at least
    /// the key's hash, wrapping to the smallest entry. The answer depends
    /// on the ring state and the key alone.
    fn get(&self, key: &str) -> (r: Option<Shard>)
        requires
            self.ring_inv(),
        ensures
            match r {
                Some(sh) => self.ring().len() > 0 && sh@ == ring_lookup(
                    self.ring(),
                    hash64_of(key@),
                ),
                None => self.ring().len() == 0,
            },
    ;

    /// All distinct physical shards present, each exactly once, ordered by
    /// first appearance when scanning the ring ascending.
    fn nodes(&self) -> (r: Vec<Shard>)
        ensures
            r@.map_values(|x: Shard| x@) =~= dedup_shards(self.ring(), Set::<Seq<char>>::empty()),
    ;
}

impl ClusterTrait for HashRing {
    open spec fn ring(&self) -> Seq<RingEntryV> {
        ring_view(self.entries@)
    }

    open spec fn ring_inv(&self) -> bool {
        self.wf()
    }

    open spec fn replica_count(&self) -> nat {
        self.replicas as nat
    }

    fn is_empty(&self) -> (r: bool) {
        self.entries.is_empty()
    }

    fn add_node(&mut self, node: Shard) {
        let ghost orig = self@;
        let r = self.replicas;
        let mut i: usize = 0;
        while i < r
            invariant
                self.wf(),
                self.replicas == r,
                orig == old(self)@,
                r == old(self).replicas,
                i <= r,
                self@ == insert_vnodes(orig, node@, i as nat),
            decreases r - i,
        {
            let node_key = vnode_key(node.get_name(), i);
            let hash = hash64(node_key.as_str());
            self.insert_entry(hash, node.clone());
            i = i + 1;
        }
    }

    fn remove_node(&mut self, node: Shard) {
        let ghost orig = self@;
        let r = self.replicas;
        let mut i: usize = 0;
        while i < r
            invariant
                self.wf(),
                self.replicas == r,
                orig == old(self)@,
                r == old(self).replicas,
                i <= r,
                self@ == remove_vnodes(orig, node@.name, i as nat),
            decreases r - i,
        {
            let node_key = vnode_key(node.get_name(), i);
            let hash = hash64(node_key.as_str());
            self.remove_entry(hash);
            i = i + 1;
        }
    }

    fn get(&self, key: &str) -> (r: Option<Shard>) {
        if self.entries.is_empty() {
            return None;
        }
        let h = hash64(key);
        let j = self.position_geq(h);
        if j < self.entries.len() {
            Some(self.entries[j].shard.clone())
        } else {
            Some(self.entries[0].shard.clone())
        }
    }

    fn nodes(&self) -> (r: Vec<Shard>) {
        let n = self.entries.len();
        let mut out: Vec<Shard> = Vec::new();
        let mut seen: Vec<String> = Vec::new();
        let mut i: usize = 0;
        proof {
            assert(names_set(Seq::<String>::empty()) =~= Set::<Seq<char>>::empty());
            assert(self@.skip(0) =~= self@);
            assert(out@.map_values(|x: Shard| x@) =~= Seq::<ShardV>::empty());
        }
        while i < n
            invariant
                n == self.entries@.len(),
                i <= n,
                out@.map_values(|x: Shard| x@) + dedup_shards(
                    self@.skip(i as int),
                    names_set(seen@),
                ) =~= dedup_shards(self@, Set::<Seq<char>>::empty()),
            decreases n - i,
        {
            let ghost pre_out = out@;
            let ghost pre_seen = seen@;
            let ghost rest = self@.skip(i as int);
            proof {
                assert(rest[0] == self@[i as int]);
                assert(rest.drop_first() =~= self@.skip(i as int + 1));
            }
            if contains_name(&seen, &self.entries[i].shard.shard_id) {
                proof {
                    assert(dedup_shards(rest, names_set(pre_seen)) == dedup_shards(
                        rest.drop_first(),
                        names_set(pre_seen),
                    ));
                }
            } else {
                out.push(self.entries[i].shard.clone());
                seen.push(self.entries[i].shard.shard_id.clone());
                proof {
                    lemma_names_set_push(pre_seen, seen@.last());
                    assert(seen@.drop_last() =~= pre_seen);
                    assert(names_set(seen@) =~= names_set(pre_seen).insert(
                        self@[i as int].shard.name,
                    ));
                    assert(dedup_shards(rest, names_set(pre_seen)) == seq![rest[0].shard]
                        + dedup_shards(rest.drop_first(), names_set(seen@)));
                    assert(out@.map_values(|x: Shard| x@) =~= pre_out.map_values(|x: Shard| x@)
                        + seq![self@[i as int].shard]);
                    assert(out@.map_values(|x: Shard| x@) + dedup_shards(
                        self@.skip(i as int + 1),
                        names_set(seen@),
                    ) =~= pre_out.map_values(|x: Shard| x@) + (seq![rest[0].shard] + dedup_shards(
                        rest.drop_first(),
                        names_set(seen@),
                    )));
                }
            }
            i = i + 1;
        }
        proof {
            assert(self@.skip(n as int) =~= Seq::<RingEntryV>::empty());
        }
        out
    }
}

/// The set of shard names present on a ring.

pub open spec fn ring_names(s: Seq<RingEntryV>) -> Set<Seq<char>> {
    Set::new(
        |n: Seq<char>| exists|i: int| 0 <= i < s.len() && (#[trigger] s[i]).shard.name == n,
    )
}

/// Deduplication is sound and complete: the shards it lists carry pairwise
/// distinct names, none of them already seen, each of them stands on the
/// ring, and the names it lists are exactly the unseen ring names.
pub proof fn lemma_dedup_distinct(s: Seq<RingEntryV>, seen: Set<Seq<char>>)
    ensures
        forall|a: int, b: int|
            0 <= a < b < dedup_shards(s, seen).len() ==> (#[trigger] dedup_shards(s, seen)[a]).name
                != (#[trigger] dedup_shards(s, seen)[b]).name,
        forall|a: int|
            0 <= a < dedup_shards(s, seen).len() ==> !seen.contains(
                (#[trigger] dedup_shards(s, seen)[a]).name,
            ),
        forall|a: int|
            0 <= a < dedup_shards(s, seen).len() ==> exists|i: int|
                0 <= i < s.len() && (#[trigger] s[i]).shard == #[trigger] dedup_shards(s, seen)[a],
        forall|n: Seq<char>|
            (exists|a: int|
                0 <= a < dedup_shards(s, seen).len() && (#[trigger] dedup_shards(s, seen)[a]).name
                    == n) <==> (#[trigger] ring_names(s).contains(n) && !seen.contains(n)),
    decreases s.len(),
{
    let d = dedup_shards(s, seen);
    if s.len() == 0 {
        assert forall|n: Seq<char>| #[trigger]
            ring_names(s).contains(n) && !seen.contains(n) implies (exists|a: int|
            0 <= a < d.len() && (#[trigger] d[a]).name == n) by {
            assert(false);
        }
    } else {
        let rest = s.drop_first();
        let nm0 = s[0].shard.name;
        if seen.contains(nm0) {
            lemma_dedup_distinct(rest, seen);
            assert(d == dedup_shards(rest, seen));
            assert forall|a: int| 0 <= a < d.len() implies exists|i: int|
                0 <= i < s.len() && (#[trigger] s[i]).shard == #[trigger] d[a] by {
                let i = choose|i: int| 0 <= i < rest.len() && (#[trigger] rest[i]).shard == d[a];
                assert(s[i + 1].shard == d[a]);
            }
            assert forall|n: Seq<char>| #[trigger]
                ring_names(s).contains(n) && !seen.contains(n) implies (exists|a: int|
                0 <= a < d.len() && (#[trigger] d[a]).name == n) by {
                let i = choose|i: int| 0 <= i < s.len() && (#[trigger] s[i]).shard.name == n;
                assert(i != 0);
                assert(rest[i - 1].shard.name == n);
                assert(ring_names(rest).contains(n));
            }
            assert forall|n: Seq<char>|
                (exists|a: int|
                    0 <= a < d.len() && (#[trigger] d[a]).name == n) implies #[trigger] ring_names(
                s,
            ).contains(n) && !seen.contains(n) by {
                let i = choose|i: int| 0 <= i < rest.len() && (#[trigger] rest[i]).shard.name == n;
                assert(s[i + 1].shard.name == n);
            }
        } else {
            let seen1 = seen.insert(nm0);
            let d1 = dedup_shards(rest, seen1);
            lemma_dedup_distinct(rest, seen1);
            assert(d == seq![s[0].shard] + d1);
            assert(d[0] == s[0].shard);
            assert forall|a: int, b: int| 0 <= a < b < d.len() implies (#[trigger] d[a]).name != (
            #[trigger] d[b]).name by {
                if a == 0 {
                    assert(d[b] == d1[b - 1]);
                    assert(!seen1.contains(d1[b - 1].name));
                } else {
                    assert(d[a] == d1[a - 1] && d[b] == d1[b - 1]);
                }
            }
            assert forall|a: int| 0 <= a < d.len() implies !seen.contains((#[trigger] d[a]).name)
                by {
                if a > 0 {
                    assert(d[a] == d1[a - 1]);
                    assert(!seen1.contains(d1[a - 1].name));
                }
            }
            assert forall|a: int| 0 <= a < d.len() implies exists|i: int|
                0 <= i < s.len() && (#[trigger] s[i]).shard == #[trigger] d[a] by {
                if a == 0 {
                    assert(s[0].shard == d[0]);
                } else {
                    assert(d[a] == d1[a - 1]);
                    let i = choose|i: int|
                        0 <= i < rest.len() && (#[trigger] rest[i]).shard == d1[a - 1];
                    assert(s[i + 1].shard == d[a]);
                }
            }
            assert forall|n: Seq<char>| #[trigger]
                ring_names(s).contains(n) && !seen.contains(n) implies (exists|a: int|
                0 <= a < d.len() && (#[trigger] d[a]).name == n) by {
                if n == nm0 {
                    assert(d[0].name == n);
                } else {
                    let i = choose|i: int| 0 <= i < s.len() && (#[trigger] s[i]).shard.name == n;
                    assert(i != 0);
                    assert(rest[i - 1].shard.name == n);
                    assert(ring_names(rest).contains(n));
                    assert(!seen1.contains(n));
                    let a = choose|a: int| 0 <= a < d1.len() && (#[trigger] d1[a]).name == n;
                    assert(d[a + 1].name == n);
                }
            }
            assert forall|n: Seq<char>|
                (exists|a: int|
                    0 <= a < d.len() && (#[trigger] d[a]).name == n) implies #[trigger] ring_names(
                s,
            ).contains(n) && !seen.contains(n) by {
                let a = choose|a: int| 0 <= a < d.len() && (#[trigger] d[a]).name == n;
                if a == 0 {
                    assert(s[0].shard.name == n);
                } else {
                    assert(d[a] == d1[a - 1]);
                    let i = choose|i: int|
                        0 <= i < rest.len() && (#[trigger] rest[i]).shard == d1[a - 1];
                    assert(s[i + 1].shard.name == n);
                    assert(!seen1.contains(n));
                }
            }
        }
    }
}

/// What `insert_vnodes` leaves on the ring: the old entries whose hash is
/// none of the shard's virtual hashes, plus one entry per virtual hash.
pub proof fn lemma_insert_vnodes_mem(s: Seq<RingEntryV>, sh: ShardV, r: nat)
    requires
        ring_sorted(s),
    ensures
        ring_sorted(insert_vnodes(s, sh, r)),
        forall|e: RingEntryV| #[trigger]
            insert_vnodes(s, sh, r).contains(e) <==> ((s.contains(e) && (forall|i: nat|
                i < r ==> e.hash != #[trigger] vnode_hash(sh.name, i))) || (exists|i: nat|
                i < r && e == (RingEntryV { hash: #[trigger] vnode_hash(sh.name, i), shard: sh }))),
    decreases r,
{
    if r > 0 {
        let prev = insert_vnodes(s, sh, (r - 1) as nat);
        let h = vnode_hash(sh.name, (r - 1) as nat);
        lemma_insert_vnodes_mem(s, sh, (r - 1) as nat);
        lemma_insert_one(prev, h, sh);
        let cur = insert_vnodes(s, sh, r);
        assert forall|e: RingEntryV| #[trigger] cur.contains(e) implies ((s.contains(e) && (
        forall|i: nat| i < r ==> e.hash != #[trigger] vnode_hash(sh.name, i))) || (exists|i: nat|
            i < r && e == (RingEntryV { hash: #[trigger] vnode_hash(sh.name, i), shard: sh }))) by {
            if e == (RingEntryV { hash: h, shard: sh }) {
                assert(e == (RingEntryV {
                    hash: vnode_hash(sh.name, (r - 1) as nat),
                    shard: sh,
                }));
            } else {
                assert(prev.contains(e) && e.hash != h);
                if s.contains(e) && (forall|i: nat|
                    i < (r - 1) as nat ==> e.hash != #[trigger] vnode_hash(sh.name, i)) {
                    assert forall|i: nat| i < r implies e.hash != #[trigger] vnode_hash(
                        sh.name,
                        i,
                    ) by {
                        if i < (r - 1) as nat {
                        }
                    }
                } else {
                    let i = choose|i: nat|
                        i < (r - 1) as nat && e == (RingEntryV {
                            hash: #[trigger] vnode_hash(sh.name, i),
                            shard: sh,
                        });
                    assert(i < r);
                }
            }
        }
        assert forall|e: RingEntryV|
            ((s.contains(e) && (forall|i: nat|
                i < r ==> e.hash != #[trigger] vnode_hash(sh.name, i))) || (exists|i: nat|
                i < r && e == (RingEntryV {
                    hash: #[trigger] vnode_hash(sh.name, i),
                    shard: sh,
                }))) implies #[trigger] cur.contains(e) by {
            if s.contains(e) && (forall|i: nat|
                i < r ==> e.hash != #[trigger] vnode_hash(sh.name, i)) {
                assert(e.hash != vnode_hash(sh.name, (r - 1) as nat));
                assert(prev.contains(e));
            } else {
                let i = choose|i: nat|
                    i < r && e == (RingEntryV {
                        hash: #[trigger] vnode_hash(sh.name, i),
                        shard: sh,
                    });
                if e.hash == h {
                    assert(e == (RingEntryV { hash: h, shard: sh }));
                } else {
                    assert(i < (r - 1) as nat);
                    assert(prev.contains(e));
                }
            }
        }
    }
}

/// What `remove_vnodes` leaves on the ring: exactly the old entries whose
/// hash is none of the shard's virtual hashes.
pub proof fn lemma_remove_vnodes_mem(s: Seq<RingEntryV>, name: Seq<char>, r: nat)
    requires
        ring_sorted(s),
    ensures
        ring_sorted(remove_vnodes(s, name, r)),
        forall|e: RingEntryV| #[trigger]
            remove_vnodes(s, name, r).contains(e) <==> (s.contains(e) && (forall|i: nat|
                i < r ==> e.hash != #[trigger] vnode_hash(name, i))),
    decreases r,
{
    if r > 0 {
        let prev = remove_vnodes(s, name, (r - 1) as nat);
        let h = vnode_hash(name, (r - 1) as nat);
        lemma_remove_vnodes_mem(s, name, (r - 1) as nat);
        lemma_remove_one(prev, h);
        let cur = remove_vnodes(s, name, r);
        assert forall|e: RingEntryV| #[trigger] cur.contains(e) implies (s.contains(e) && (
        forall|i: nat| i < r ==> e.hash != #[trigger] vnode_hash(name, i))) by {
            assert(prev.contains(e) && e.hash != h);
            assert forall|i: nat| i < r implies e.hash != #[trigger] vnode_hash(name, i) by {
                if i < (r - 1) as nat {
                }
            }
        }
        assert forall|e: RingEntryV|
            (s.contains(e) && (forall|i: nat|
                i < r ==> e.hash != #[trigger] vnode_hash(name, i))) implies #[trigger] cur.contains(
            e,
        ) by {
            assert(e.hash != vnode_hash(name, (r - 1) as nat));
            assert(prev.contains(e));
        }
    }
}

/// Adding a shard adds exactly its own name to the set of names on the
/// ring, provided none of its virtual hashes collides with an entry of a
/// differently named shard.
pub proof fn lemma_add_node_names(s: Seq<RingEntryV>, sh: ShardV, r: nat)
    requires
        ring_sorted(s),
        r > 0,
        forall|e: RingEntryV, i: nat| #![trigger s.contains(e), vnode_hash(sh.name, i)]
            s.contains(e) && i < r && e.hash == vnode_hash(sh.name, i) ==> e.shard.name == sh.name,
    ensures
        ring_names(insert_vnodes(s, sh, r)) =~= ring_names(s).insert(sh.name),
{
    lemma_insert_vnodes_mem(s, sh, r);
    let cur = insert_vnodes(s, sh, r);
    assert forall|n: Seq<char>| #[trigger]
        ring_names(cur).contains(n) implies ring_names(s).insert(sh.name).contains(n) by {
        let i = choose|i: int| 0 <= i < cur.len() && (#[trigger] cur[i]).shard.name == n;
        let e = cur[i];
        assert(cur.contains(e));
        if s.contains(e) {
            let j = choose|j: int| 0 <= j < s.len() && s[j] == e;
            assert(s[j].shard.name == n);
        } else {
            assert(n == sh.name);
        }
    }
    assert forall|n: Seq<char>| #[trigger]
        ring_names(s).insert(sh.name).contains(n) implies ring_names(cur).contains(n) by {
        if n == sh.name {
            let e0 = RingEntryV { hash: vnode_hash(sh.name, 0), shard: sh };
            assert(0 < r && e0 == (RingEntryV { hash: vnode_hash(sh.name, (0 as nat)), shard: sh }));
            assert(cur.contains(e0));
            let i = choose|i: int| 0 <= i < cur.len() && cur[i] == e0;
            assert(cur[i].shard.name == n);
        } else {
            let j = choose|j: int| 0 <= j < s.len() && (#[trigger] s[j]).shard.name == n;
            let e = s[j];
            assert(s.contains(e));
            assert forall|i: nat| i < r implies e.hash != #[trigger] vnode_hash(sh.name, i) by {
                if e.hash == vnode_hash(sh.name, i) {
                    assert(e.shard.name == sh.name);
                }
            }
            assert(cur.contains(e));
            let i = choose|i: int| 0 <= i < cur.len() && cur[i] == e;
            assert(cur[i].shard.name == n);
        }
    }
}

/// Removing a shard removes exactly its own name from the set of names on
/// the ring, provided its entries sit exactly at its own virtual hashes:
/// every entry named for it lies at one of those hashes, and every entry at
/// one of those hashes is named for it.
pub proof fn lemma_remove_node_names(s: Seq<RingEntryV>, name: Seq<char>, r: nat)
    requires
        ring_sorted(s),
        forall|e: RingEntryV| #[trigger]
            s.contains(e) && e.shard.name == name ==> exists|i: nat|
                i < r && e.hash == #[trigger] vnode_hash(name, i),
        forall|e: RingEntryV, i: nat| #![trigger s.contains(e), vnode_hash(name, i)]
            s.contains(e) && i < r && e.hash == vnode_hash(name, i) ==> e.shard.name == name,
    ensures
        ring_names(remove_vnodes(s, name, r)) =~= ring_names(s).remove(name),
{
    lemma_remove_vnodes_mem(s, name, r);
    let cur = remove_vnodes(s, name, r);
    assert forall|n: Seq<char>| #[trigger]
        ring_names(cur).contains(n) implies ring_names(s).remove(name).contains(n) by {
        let i = choose|i: int| 0 <= i < cur.len() && (#[trigger] cur[i]).shard.name == n;
        let e = cur[i];
        assert(cur.contains(e));
        let j = choose|j: int| 0 <= j < s.len() && s[j] == e;
        assert(s[j].shard.name == n);
        if n == name {
            let k = choose|k: nat| k < r && e.hash == #[trigger] vnode_hash(name, k);
            assert(e.hash != vnode_hash(name, k));
        }
    }
    assert forall|n: Seq<char>| #[trigger]
        ring_names(s).remove(name).contains(n) implies ring_names(cur).contains(n) by {
        let j = choose|j: int| 0 <= j < s.len() && (#[trigger] s[j]).shard.name == n;
        let e = s[j];
        assert(s.contains(e));
        assert forall|i: nat| i < r implies e.hash != #[trigger] vnode_hash(name, i) by {
            if e.hash == vnode_hash(name, i) {
                assert(e.shard.name == name);
            }
        }
        assert(cur.contains(e));
        let i = choose|i: int| 0 <= i < cur.len() && cur[i] == e;
        assert(cur[i].shard.name == n);
    }
}

/// Whatever a non-empty ring resolves a hash to is the shard of one of its
/// entries: every key is covered.
/// Ring determinism: for a fixed ring state, one key resolves to one
/// shard — whatever two lookups of the same key return, it is the same
/// shard, since the answer is a function of the entries and the key's hash
/// alone.
pub proof fn lemma_ring_lookup_deterministic(s: Seq<RingEntryV>, k: Seq<char>, r1: ShardV, r2: ShardV)
    requires
        r1 == ring_lookup(s, hash64_of(k)),
        r2 == ring_lookup(s, hash64_of(k)),
    ensures
        r1 == r2,
{
}

pub proof fn lemma_ring_lookup_member(s: Seq<RingEntryV>, h: u64)
    requires
        s.len() > 0,
    ensures
        exists|i: int| 0 <= i < s.len() && (#[trigger] s[i]).shard == ring_lookup(s, h),
{
    lemma_first_geq(s, h);
    if first_geq(s, h) < s.len() {
        assert(s[first_geq(s, h)].shard == ring_lookup(s, h));
    } else {
        assert(s[0].shard == ring_lookup(s, h));
    }
}

} // verus!
