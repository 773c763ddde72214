//! One shard of the cache: keys mapped to values with an expiry instant, and
//! the choice of shard for a key.
use vstd::prelude::*;
use bytes::Bytes;
use std::collections::HashMap;
use std::collections::hash_map::DefaultHasher;
use std::hash::Hasher;
use std::time::{Duration, SystemTime, UNIX_EPOCH};
use vstd::std_specs::hash::DefaultHasherAdditionalSpecFns;
use vstd::std_specs::hash::spec_keys_iter;
use vstd::std_specs::iter::IteratorSpec;
use crate::buffers::{bytes_as_slice, bytes_clone, bytes_content};

verus! {

broadcast use vstd::std_specs::hash::group_hash_axioms;

/// A stored value and the instant (milliseconds since the Unix epoch) up to which it
/// may be read; it is expired once the clock is past it.
pub struct StorageEntry {
    pub value: Bytes,
    pub ttl: u128,
}

/// A stored value as plain values.
pub struct EntryView {
    pub value: Seq<u8>,
    pub ttl: u128,
}

impl View for StorageEntry {
    type V = EntryView;

    open spec fn view(&self) -> EntryView {
        EntryView { value: bytes_content(self.value), ttl: self.ttl }
    }
}

/// What `DefaultHasher` computes for a key written into it as one slice.
pub open spec fn key_hash(key: Seq<u8>) -> u64 {
    DefaultHasher::spec_finish(seq![key])
}

/// Hashes a key with a fresh `DefaultHasher` (all of which start alike).
pub fn hash_key(key: &[u8]) -> (h: u64)
    ensures
        h == key_hash(key@),
{
    let mut hasher = DefaultHasher::new();
    hasher.write(key);
    let h = hasher.finish();
    assert(seq![key@] =~= Seq::<Seq<u8>>::empty().push(key@));
    h
}

/// The shard that holds `key` among `shard_count` shards.
pub open spec fn shard_of(key: Seq<u8>, shard_count: usize) -> int {
    (key_hash(key) as usize) as int % shard_count as int
}

/// Picks the shard for a key: its hash, as a `usize`, modulo the number of shards.
/// With no shards there is nothing to pick (the division would fail).
pub fn shard_index(key: &Bytes, shard_count: usize) -> (i: usize)
    requires
        shard_count > 0,
    ensures
        i == shard_of(bytes_content(*key), shard_count),
        i < shard_count,
{
    let h = hash_key(bytes_as_slice(key));
    (h as usize) % shard_count
}

/// What a read at instant `now` gives: the value, unless the key is absent or its
/// entry expired before `now`.
pub open spec fn read_at(m: Map<Seq<u8>, EntryView>, key: Seq<u8>, now: u128) -> Option<Seq<u8>> {
    if m.contains_key(key) && !(m[key].ttl < now) {
        Some(m[key].value)
    } else {
        None
    }
}

/// The instant at which an entry stored at `now` for `ttl` milliseconds expires.
pub open spec fn expiry(now: u128, ttl: u128) -> u128 {
    (now + ttl) as u128
}

/// The content of an optional `Bytes` handle.
pub open spec fn opt_content(o: Option<Bytes>) -> Option<Seq<u8>> {
    match o {
        Some(b) => Some(bytes_content(b)),
        None => None,
    }
}

/// The content of an optional entry.
pub open spec fn opt_entry(o: Option<StorageEntry>) -> Option<EntryView> {
    match o {
        Some(e) => Some(e@),
        None => None,
    }
}

/// Largest value of the clock in milliseconds: a `Duration` holds whole seconds
/// as a `u64` and less than a second besides.
pub const CLOCK_MILLIS_MAX: u128 = 18446744073709551615999u128;

/// Largest time-to-live that can be added to any reading of the clock.
pub const TTL_MAX: u128 = 340282366920938445016630533722216595456u128;

#[verifier::external_type_specification]
#[verifier::external_body]
pub struct ExSystemTime(SystemTime);

/// `SystemTime::now`: the system clock's current reading. Nothing is stated of it.
#[verifier::external_body]
fn system_now() -> (t: SystemTime) {
    SystemTime::now()
}

/// `SystemTime::duration_since(UNIX_EPOCH)`: how long after the Unix epoch `t` is,
/// or `None` for the error it reports when `t` is before the epoch. Nothing is stated
/// of the duration.
#[verifier::external_body]
fn since_unix_epoch(t: &SystemTime) -> (d: Option<Duration>) {
    match t.duration_since(UNIX_EPOCH) {
        Ok(d) => Some(d),
        Err(_) => None,
    }
}

/// `Duration::as_millis`: the whole milliseconds of `d`. A `Duration` holds at most
/// `u64::MAX` seconds and less than a second besides, which bounds the result.
#[verifier::external_body]
fn duration_millis(d: &Duration) -> (ms: u128)
    ensures
        ms <= CLOCK_MILLIS_MAX,
{
    d.as_millis()
}

/// The clock in milliseconds since the Unix epoch; a clock set before the epoch
/// counts as the epoch itself.
pub(crate) fn now_millis() -> (t: u128)
    ensures
        t <= CLOCK_MILLIS_MAX,
{
    match since_unix_epoch(&system_now()) {
        Some(d) => duration_millis(&d),
        None => 0,
    }
}

/// The expiry `now + ttl` does not fit in a `u128`.
pub open spec fn expiry_overflows(now: u128, ttl: u128) -> bool {
    now + ttl > u128::MAX
}

/// A write refused because its expiry instant would not fit in a `u128`.
#[derive(Debug)]
pub struct ExpiryOverflow;

struct Slot {
    key: Bytes,
    entry: StorageEntry,
}

spec fn slot_key(s: Slot) -> Seq<u8> {
    bytes_content(s.key)
}

spec fn bucket_ok(b: Seq<Slot>, h: u64, c: Map<Seq<u8>, EntryView>) -> bool {
    &&& b.len() > 0
    &&& forall|i: int|
        0 <= i < b.len() ==> {
            &&& key_hash(#[trigger] slot_key(b[i])) == h
            &&& c.contains_key(slot_key(b[i]))
            &&& c[slot_key(b[i])] == b[i].entry@
        }
    &&& forall|i: int, j: int|
        0 <= i < b.len() && 0 <= j < b.len() && i != j ==> #[trigger] slot_key(b[i])
            != #[trigger] slot_key(b[j])
}

spec fn bucket_has(b: Seq<Slot>, k: Seq<u8>) -> bool {
    exists|i: int| 0 <= i < b.len() && #[trigger] slot_key(b[i]) == k
}

/// A map from keys to entries. Keys are grouped by their hash, each group holding
/// distinct keys.
struct Table {
    kv: HashMap<u64, Vec<Slot>>,
    contents: Ghost<Map<Seq<u8>, EntryView>>,
}

impl View for Table {
    type V = Map<Seq<u8>, EntryView>;

    closed spec fn view(&self) -> Map<Seq<u8>, EntryView> {
        self.contents@
    }
}

impl Table {
    /// The shard's internal consistency: every group holds the keys of its hash,
    /// with the entries that the map gives them, and every key of the map is in
    /// the group of its hash.
    spec fn wf(&self) -> bool {
        &&& self.contents@.dom().finite()
        &&& forall|h: u64| #[trigger]
            self.kv@.contains_key(h) ==> bucket_ok(self.kv@[h]@, h, self.contents@)
        &&& forall|k: Seq<u8>| #[trigger]
            self.contents@.contains_key(k) ==> {
                &&& self.kv@.contains_key(key_hash(k))
                &&& bucket_has(self.kv@[key_hash(k)]@, k)
            }
    }

    /// An empty table.
    fn new() -> (s: Self)
        ensures
            s.wf(),
            s@ == Map::<Seq<u8>, EntryView>::empty(),
    {
        Table { kv: HashMap::new(), contents: Ghost(Map::empty()) }
    }

    /// Whether the shard holds no entry, expired or not.
    fn is_empty(&self) -> (r: bool)
        requires
            self.wf(),
        ensures
            r == (self@.dom().len() == 0),
    {
        let r = self.kv.is_empty();
        proof {
            if r {
                if self@.dom().len() != 0 {
                    let k = self@.dom().choose();
                    assert(self@.contains_key(k));
                    assert(self.kv@.contains_key(key_hash(k)));
                    assert(self.kv@.dom().contains(key_hash(k)));
                }
            } else {
                let h = self.kv@.dom().choose();
                assert(self.kv@.contains_key(h));
                assert(bucket_ok(self.kv@[h]@, h, self@));
                let k = slot_key(self.kv@[h]@[0]);
                assert(self@.contains_key(k));
                assert(self@.dom().contains(k));
            }
        }
        r
    }
}

impl Table {
    /// Reads `key` at instant `now`: its value while it has not expired.
    fn get_at(&self, key: &Bytes, now: u128) -> (r: Option<Bytes>)
        requires
            self.wf(),
        ensures
            opt_content(r) == read_at(self@, bytes_content(*key), now),
    {
        let k = bytes_as_slice(key);
        let h = hash_key(k);
        match self.kv.get(&h) {
            None => {
                assert(!self@.contains_key(k@));
                None
            },
            Some(b) => {
                assert(bucket_ok(self.kv@[h]@, h, self@));
                match find_slot(b, k) {
                    None => {
                        proof {
                            if self@.contains_key(k@) {
                                assert(bucket_has(b@, k@));
                            }
                        }
                        None
                    },
                    Some(i) => {
                        let entry = &b[i].entry;
                        assert(slot_key(b@[i as int]) == k@);
                        if entry.ttl < now {
                            None
                        } else {
                            Some(bytes_clone(&entry.value))
                        }
                    },
                }
            },
        }
    }

    /// Stores `value` under `key`, to be readable up to `now + ttl`. Gives back the
    /// entry it replaces, if any.
    fn set_at(&mut self, key: Bytes, value: Bytes, ttl: u128, now: u128) -> (r: Option<
        StorageEntry,
    >)
        requires
            old(self).wf(),
            now + ttl <= u128::MAX,
        ensures
            final(self).wf(),
            final(self)@ == old(self)@.insert(
                bytes_content(key),
                EntryView { value: bytes_content(value), ttl: (now + ttl) as u128 },
            ),
            opt_entry(r) == (if old(self)@.contains_key(bytes_content(key)) {
                Some(old(self)@[bytes_content(key)])
            } else {
                None
            }),
    {
        let ghost k = bytes_content(key);
        let ghost c0 = self.contents@;
        let ghost m0 = self.kv@;
        let h = hash_key(bytes_as_slice(&key));
        let entry = StorageEntry { value, ttl: now + ttl };
        let ghost ev = entry@;
        let ghost c1 = c0.insert(k, ev);
        let mut b = match self.kv.remove(&h) {
            Some(b) => b,
            None => Vec::new(),
        };
        let ghost b0 = b@;
        assert(m0.contains_key(h) ==> b0 == m0[h]@);
        assert(!m0.contains_key(h) ==> b0.len() == 0);
        let found = find_slot(&b, bytes_as_slice(&key));
        let mut slot = Slot { key, entry };
        let r = match found {
            Some(i) => {
                b.set_and_swap(i, &mut slot);
                proof {
                    assert(bucket_ok(b0, h, c0));
                    assert(c0.contains_key(k));
                    assert(slot.entry@ == c0[k]);
                    assert forall|x: int, y: int|
                        0 <= x < b@.len() && 0 <= y < b@.len() && x != y implies #[trigger] slot_key(
                        b@[x],
                    ) != #[trigger] slot_key(b@[y]) by {
                        if x != i && y != i {
                            assert(slot_key(b@[x]) == slot_key(b0[x]));
                            assert(slot_key(b@[y]) == slot_key(b0[y]));
                        } else if x == i {
                            assert(slot_key(b@[y]) == slot_key(b0[y]));
                            assert(slot_key(b0[x]) == k);
                        } else {
                            assert(slot_key(b@[x]) == slot_key(b0[x]));
                            assert(slot_key(b0[y]) == k);
                        }
                    }
                    assert forall|x: int| 0 <= x < b@.len() implies {
                        &&& key_hash(#[trigger] slot_key(b@[x])) == h
                        &&& c1.contains_key(slot_key(b@[x]))
                        &&& c1[slot_key(b@[x])] == b@[x].entry@
                    } by {
                        if x != i {
                            assert(b@[x] == b0[x]);
                            assert(slot_key(b0[x]) != slot_key(b0[i as int]));
                        }
                    }
                    assert(bucket_ok(b@, h, c1));
                    assert(slot_key(b@[i as int]) == k);
                    assert(bucket_has(b@, k));
                }
                Some(slot.entry)
            },
            None => {
                b.push(slot);
                proof {
                    let n = b0.len() as int;
                    if m0.contains_key(h) {
                        assert(bucket_ok(b0, h, c0));
                    }
                    assert(!c0.contains_key(k)) by {
                        if c0.contains_key(k) {
                            assert(m0.contains_key(key_hash(k)));
                            assert(bucket_has(b0, k));
                            let j = choose|j: int| 0 <= j < b0.len() && #[trigger] slot_key(b0[j]) == k;
                            assert(slot_key(b0[j]) != k);
                        }
                    }
                    assert forall|x: int, y: int|
                        0 <= x < b@.len() && 0 <= y < b@.len() && x != y implies #[trigger] slot_key(
                        b@[x],
                    ) != #[trigger] slot_key(b@[y]) by {
                        if x < n && y < n {
                            assert(b@[x] == b0[x] && b@[y] == b0[y]);
                        } else if x == n {
                            assert(b@[y] == b0[y]);
                            assert(slot_key(b0[y]) != k);
                        } else {
                            assert(b@[x] == b0[x]);
                            assert(slot_key(b0[x]) != k);
                        }
                    }
                    assert forall|x: int| 0 <= x < b@.len() implies {
                        &&& key_hash(#[trigger] slot_key(b@[x])) == h
                        &&& c1.contains_key(slot_key(b@[x]))
                        &&& c1[slot_key(b@[x])] == b@[x].entry@
                    } by {
                        if x < n {
                            assert(b@[x] == b0[x]);
                            assert(slot_key(b0[x]) != k);
                        }
                    }
                    assert(bucket_ok(b@, h, c1));
                    assert(slot_key(b@[n]) == k);
                    assert(bucket_has(b@, k));
                }
                None
            },
        };
        let ghost b1 = b@;
        self.kv.insert(h, b);
        self.contents = Ghost(c1);
        proof {
            let m1 = self.kv@;
            assert(m1.contains_key(h) && m1[h]@ == b1);
            assert forall|h2: u64| #[trigger] m1.contains_key(h2) implies bucket_ok(
                m1[h2]@,
                h2,
                c1,
            ) by {
                if h2 != h {
                    let bb = m0[h2]@;
                    assert(bucket_ok(bb, h2, c0));
                    assert forall|x: int| 0 <= x < bb.len() implies {
                        &&& key_hash(#[trigger] slot_key(bb[x])) == h2
                        &&& c1.contains_key(slot_key(bb[x]))
                        &&& c1[slot_key(bb[x])] == bb[x].entry@
                    } by {
                        assert(slot_key(bb[x]) != k);
                    }
                }
            }
            assert forall|k2: Seq<u8>| #[trigger] c1.contains_key(k2) implies {
                &&& m1.contains_key(key_hash(k2))
                &&& bucket_has(m1[key_hash(k2)]@, k2)
            } by {
                if k2 != k {
                    assert(c0.contains_key(k2));
                    let h2 = key_hash(k2);
                    assert(bucket_has(m0[h2]@, k2));
                    if h2 == h {
                        let j = choose|j: int| 0 <= j < b0.len() && #[trigger] slot_key(b0[j]) == k2;
                        assert(slot_key(b1[j]) == k2);
                    }
                }
            }
        }
        r
    }
}

/// The entries of `m` that have not expired at instant `now`.
pub open spec fn unexpired(m: Map<Seq<u8>, EntryView>, now: u128) -> Map<Seq<u8>, EntryView> {
    Map::new(|k: Seq<u8>| m.contains_key(k) && !(m[k].ttl < now), |k: Seq<u8>| m[k])
}

/// `m` with the expired entries dropped among the keys whose hash is in `done`.
spec fn unexpired_among(m: Map<Seq<u8>, EntryView>, done: Set<u64>, now: u128) -> Map<
    Seq<u8>,
    EntryView,
> {
    Map::new(
        |k: Seq<u8>| m.contains_key(k) && (done.contains(key_hash(k)) ==> !(m[k].ttl < now)),
        |k: Seq<u8>| m[k],
    )
}

/// Copies the slots of a group that have not expired at `now`; `src` tells, for each
/// copy, which slot it was taken from.
fn keep_unexpired(b: &Vec<Slot>, now: u128) -> (r: (Vec<Slot>, Ghost<Seq<int>>))
    ensures
        r.1@.len() == r.0@.len(),
        forall|a: int|
            0 <= a < r.0@.len() ==> {
                let x = #[trigger] r.1@[a];
                &&& 0 <= x < b@.len()
                &&& slot_key(r.0@[a]) == slot_key(b@[x])
                &&& r.0@[a].entry@ == b@[x].entry@
                &&& !(b@[x].entry.ttl < now)
            },
        forall|a1: int, a2: int|
            0 <= a1 < a2 < r.0@.len() ==> #[trigger] r.1@[a1] < #[trigger] r.1@[a2],
        forall|x: int|
            0 <= x < b@.len() && !(#[trigger] b@[x].entry.ttl < now) ==> exists|a: int|
                0 <= a < r.0@.len() && #[trigger] r.1@[a] == x,
{
    let mut nb: Vec<Slot> = Vec::new();
    let ghost mut src: Seq<int> = Seq::empty();
    let n = b.len();
    let mut i: usize = 0;
    while i < n
        invariant
            n == b@.len(),
            i <= n,
            src.len() == nb@.len(),
            forall|a: int|
                0 <= a < nb@.len() ==> {
                    let x = #[trigger] src[a];
                    &&& 0 <= x < i
                    &&& slot_key(nb@[a]) == slot_key(b@[x])
                    &&& nb@[a].entry@ == b@[x].entry@
                    &&& !(b@[x].entry.ttl < now)
                },
            forall|a1: int, a2: int| 0 <= a1 < a2 < nb@.len() ==> #[trigger] src[a1] < #[trigger] src[a2],
            forall|x: int|
                0 <= x < i && !(#[trigger] b@[x].entry.ttl < now) ==> exists|a: int|
                    0 <= a < nb@.len() && #[trigger] src[a] == x,
        decreases n - i,
    {
        let s = &b[i];
        if !(s.entry.ttl < now) {
            let copy = Slot {
                key: bytes_clone(&s.key),
                entry: StorageEntry { value: bytes_clone(&s.entry.value), ttl: s.entry.ttl },
            };
            let ghost old_src = src;
            let ghost old_nb = nb@;
            nb.push(copy);
            proof {
                src = src.push(i as int);
                assert forall|x: int|
                    0 <= x < i + 1 && !(#[trigger] b@[x].entry.ttl < now) implies exists|a: int|
                    0 <= a < nb@.len() && #[trigger] src[a] == x by {
                    if x < i {
                        let a = choose|a: int| 0 <= a < old_nb.len() && #[trigger] old_src[a] == x;
                        assert(src[a] == x);
                    } else {
                        assert(src[old_nb.len() as int] == x);
                    }
                }
            }
        } else {
            proof {
                assert forall|x: int|
                    0 <= x < i + 1 && !(#[trigger] b@[x].entry.ttl < now) implies exists|a: int|
                    0 <= a < nb@.len() && #[trigger] src[a] == x by {
                }
            }
        }
        i = i + 1;
    }
    let r = (nb, Ghost(src));
    assert forall|x: int|
        0 <= x < b@.len() && !(#[trigger] b@[x].entry.ttl < now) implies exists|a: int|
        0 <= a < r.0@.len() && #[trigger] r.1@[a] == x by {
        assert(x < i);
        let a = choose|a: int| 0 <= a < nb@.len() && #[trigger] src[a] == x;
        assert(r.1@[a] == x);
    }
    r
}

impl Table {
    /// Drops every entry that has expired at instant `now`.
    fn evict_expired_at(&mut self, now: u128)
        requires
            old(self).wf(),
        ensures
            final(self).wf(),
            final(self)@ == unexpired(old(self)@, now),
    {
        let ghost c0 = self.contents@;
        let ghost m0 = self.kv@;
        let ghost all = spec_keys_iter(&self.kv).remaining();
        let mut ids: Vec<u64> = Vec::new();
        for h in it: self.kv.keys()
            invariant
                it.seq() == all,
                ids@.len() == it.index(),
                forall|x: int| 0 <= x < ids@.len() ==> ids@[x] == *all[x],
        {
            ids.push(*h);
        }
        assert(ids@.len() == all.len());
        assert(ids@ =~= all.unref());
        let n = ids.len();
        let mut j: usize = 0;
        proof {
            assert(ids@.take(0) =~= Seq::<u64>::empty());
            assert(self.contents@ =~= unexpired_among(c0, ids@.take(0).to_set(), now));
        }
        while j < n
            invariant
                n == ids@.len(),
                j <= n,
                c0.dom().finite(),
                self.wf(),
                self.contents@ == unexpired_among(c0, ids@.take(j as int).to_set(), now),
            decreases n - j,
        {
            let h = ids[j];
            let ghost cj = self.contents@;
            let ghost mj = self.kv@;
            let ghost done1 = ids@.take(j + 1).to_set();
            let ghost c1 = unexpired_among(c0, done1, now);
            assert(ids@.take(j + 1) =~= ids@.take(j as int).push(h));
            assert(ids@.take(j + 1)[j as int] == h);
            assert(done1.contains(h));
            match self.kv.remove(&h) {
                None => {
                    proof {
                        assert(c1 =~= cj) by {
                            assert forall|k: Seq<u8>| #[trigger] c1.contains_key(k) == cj.contains_key(k) by {
                                if cj.contains_key(k) {
                                    assert(mj.contains_key(key_hash(k)));
                                }
                            }
                        }
                    }
                    self.contents = Ghost(c1);
                },
                Some(b) => {
                    let ghost bs = b@;
                    assert(bucket_ok(bs, h, cj));
                    let (nb, Ghost(src)) = keep_unexpired(&b, now);
                    let ghost ns = nb@;
                    let keep = nb.len() > 0;
                    if keep {
                        self.kv.insert(h, nb);
                    }
                    self.contents = Ghost(c1);
                    proof {
                        let m1 = self.kv@;
                        assert forall|a: int| 0 <= a < ns.len() implies {
                            &&& key_hash(#[trigger] slot_key(ns[a])) == h
                            &&& c1.contains_key(slot_key(ns[a]))
                            &&& c1[slot_key(ns[a])] == ns[a].entry@
                        } by {
                            let x = src[a];
                            assert(slot_key(ns[a]) == slot_key(bs[x]));
                        }
                        assert forall|a1: int, a2: int|
                            0 <= a1 < ns.len() && 0 <= a2 < ns.len() && a1 != a2 implies #[trigger] slot_key(
                            ns[a1],
                        ) != #[trigger] slot_key(ns[a2]) by {
                            if a1 < a2 {
                                assert(src[a1] < src[a2]);
                            } else {
                                assert(src[a2] < src[a1]);
                            }
                            assert(slot_key(bs[src[a1]]) != slot_key(bs[src[a2]]));
                        }
                        if keep {
                            assert(bucket_ok(ns, h, c1));
                        }
                        assert forall|h2: u64| #[trigger] m1.contains_key(h2) implies bucket_ok(
                            m1[h2]@,
                            h2,
                            c1,
                        ) by {
                            if h2 != h {
                                let bb = mj[h2]@;
                                assert(bucket_ok(bb, h2, cj));
                                assert forall|x: int| 0 <= x < bb.len() implies {
                                    &&& key_hash(#[trigger] slot_key(bb[x])) == h2
                                    &&& c1.contains_key(slot_key(bb[x]))
                                    &&& c1[slot_key(bb[x])] == bb[x].entry@
                                } by {
                                    assert(cj.contains_key(slot_key(bb[x])));
                                }
                            }
                        }
                        assert forall|k2: Seq<u8>| #[trigger] c1.contains_key(k2) implies {
                            &&& m1.contains_key(key_hash(k2))
                            &&& bucket_has(m1[key_hash(k2)]@, k2)
                        } by {
                            assert(cj.contains_key(k2));
                            let h2 = key_hash(k2);
                            assert(bucket_has(mj[h2]@, k2));
                            if h2 == h {
                                let x = choose|x: int| 0 <= x < bs.len() && #[trigger] slot_key(bs[x]) == k2;
                                assert(bs[x].entry@ == cj[k2]);
                                assert(!(bs[x].entry.ttl < now));
                                let a = choose|a: int| 0 <= a < ns.len() && #[trigger] src[a] == x;
                                assert(slot_key(ns[a]) == k2);
                            }
                        }
                        assert(self.contents@.dom().finite()) by {
                            assert(c1.dom().subset_of(c0.dom()));
                            vstd::set_lib::lemma_set_subset_finite(c0.dom(), c1.dom());
                        }
                    }
                },
            }
            j = j + 1;
        }
        proof {
            assert(ids@.take(n as int) =~= ids@);
            assert(self.contents@ =~= unexpired(c0, now)) by {
                assert forall|k: Seq<u8>| c0.contains_key(k) implies #[trigger] ids@.to_set().contains(key_hash(k)) by {
                    assert(m0.contains_key(key_hash(k)));
                }
            }
        }
    }
}

/// One shard of the cache: keys mapped to values that expire.
pub struct Storage {
    table: Table,
}

impl View for Storage {
    type V = Map<Seq<u8>, EntryView>;

    closed spec fn view(&self) -> Map<Seq<u8>, EntryView> {
        self.table@
    }
}

impl Storage {
    #[verifier::type_invariant]
    spec fn table_wf(&self) -> bool {
        self.table.wf()
    }

    /// An empty shard.
    pub fn new() -> (s: Self)
        ensures
            s@ == Map::<Seq<u8>, EntryView>::empty(),
    {
        Storage { table: Table::new() }
    }

    /// Whether the shard holds no entry, expired or not.
    pub fn is_empty(&self) -> (r: bool)
        ensures
            r == (self@.dom().len() == 0),
    {
        proof {
            use_type_invariant(self);
        }
        self.table.is_empty()
    }

    /// Reads `key` at instant `now`: its value while it has not expired.
    pub fn get_at(&self, key: &Bytes, now: u128) -> (r: Option<Bytes>)
        ensures
            opt_content(r) == read_at(self@, bytes_content(*key), now),
    {
        proof {
            use_type_invariant(self);
        }
        self.table.get_at(key, now)
    }

    /// Stores `value` under `key`, to be readable up to `now + ttl`. Gives back the
    /// entry it replaces, if any.
    pub fn set_at(&mut self, key: Bytes, value: Bytes, ttl: u128, now: u128) -> (r: Option<
        StorageEntry,
    >)
        requires
            now + ttl <= u128::MAX,
        ensures
            final(self)@ == old(self)@.insert(
                bytes_content(key),
                EntryView { value: bytes_content(value), ttl: expiry(now, ttl) },
            ),
            opt_entry(r) == (if old(self)@.contains_key(bytes_content(key)) {
                Some(old(self)@[bytes_content(key)])
            } else {
                None
            }),
    {
        proof {
            use_type_invariant(&*self);
        }
        let mut table = Table::new();
        std::mem::swap(&mut table, &mut self.table);
        let r = table.set_at(key, value, ttl, now);
        self.table = table;
        r
    }

    /// Drops every entry that has expired at instant `now`.
    pub fn evict_expired_at(&mut self, now: u128)
        ensures
            final(self)@ == unexpired(old(self)@, now),
    {
        proof {
            use_type_invariant(&*self);
        }
        let mut table = Table::new();
        std::mem::swap(&mut table, &mut self.table);
        table.evict_expired_at(now);
        self.table = table;
    }

    /// Stores `value` under `key` for `ttl` milliseconds from now by the system
    /// clock, giving back the entry it replaces, if any. When `now + ttl` does not fit
    /// in a `u128` nothing is stored and `ExpiryOverflow` comes back; a TTL of at most
    /// `TTL_MAX` always fits.
    pub fn set(&mut self, key: Bytes, value: Bytes, ttl: u128) -> (r: Result<
        Option<StorageEntry>,
        ExpiryOverflow,
    >)
        ensures
            ttl <= TTL_MAX ==> r is Ok,
            match r {
                Ok(prev) => {
                    &&& exists|now: u128|
                        now <= CLOCK_MILLIS_MAX && now + ttl <= u128::MAX && final(self)@
                            == old(self)@.insert(
                            bytes_content(key),
                            EntryView { value: bytes_content(value), ttl: #[trigger] expiry(now, ttl) },
                        )
                    &&& opt_entry(prev) == (if old(self)@.contains_key(bytes_content(key)) {
                        Some(old(self)@[bytes_content(key)])
                    } else {
                        None
                    })
                },
                Err(_) => {
                    &&& final(self)@ == old(self)@
                    &&& exists|now: u128| now <= CLOCK_MILLIS_MAX && #[trigger] expiry_overflows(now, ttl)
                },
            },
    {
        let now = now_millis();
        match now.checked_add(ttl) {
            None => {
                assert(expiry_overflows(now, ttl));
                Err(ExpiryOverflow)
            },
            Some(_) => {
                let ghost k = bytes_content(key);
                let ghost v = bytes_content(value);
                let r = self.set_at(key, value, ttl, now);
                assert(self@ == old(self)@.insert(k, EntryView { value: v, ttl: expiry(now, ttl) }));
                Ok(r)
            },
        }
    }

    /// Reads `key` now, by the system clock: its value while it has not expired.
    pub fn get(&self, key: &Bytes) -> (r: Option<Bytes>)
        ensures
            exists|now: u128|
                now <= CLOCK_MILLIS_MAX && #[trigger] read_at(self@, bytes_content(*key), now)
                    == opt_content(r),
    {
        let now = now_millis();
        self.get_at(key, now)
    }

    /// Drops the entries that have expired by the system clock. An empty shard is
    /// left alone without reading the clock.
    pub fn evict_expired(&mut self)
        ensures
            exists|now: u128|
                now <= CLOCK_MILLIS_MAX && #[trigger] unexpired(old(self)@, now) == final(self)@,
    {
        if self.is_empty() {
            assert(unexpired(self@, 0) =~= self@);
            return;
        }
        let now = now_millis();
        self.evict_expired_at(now);
    }
}

/// A value written at `now` for `ttl` milliseconds reads back unchanged at every
/// instant up to `now + ttl`, and is gone after it.
pub proof fn law_read_after_write(
    m: Map<Seq<u8>, EntryView>,
    key: Seq<u8>,
    value: Seq<u8>,
    ttl: u128,
    now: u128,
    later: u128,
)
    requires
        now + ttl <= u128::MAX,
    ensures
        read_at(m.insert(key, EntryView { value, ttl: expiry(now, ttl) }), key, later) == (if later
            <= now + ttl {
            Some(value)
        } else {
            None
        }),
{
}

/// A second write of a key replaces both the value and the expiry of the first:
/// reads then follow the second write alone.
pub proof fn law_overwrite(
    m: Map<Seq<u8>, EntryView>,
    key: Seq<u8>,
    first: EntryView,
    value: Seq<u8>,
    ttl: u128,
    now: u128,
    later: u128,
)
    requires
        now + ttl <= u128::MAX,
    ensures
        read_at(
            m.insert(key, first).insert(key, EntryView { value, ttl: expiry(now, ttl) }),
            key,
            later,
        ) == (if later <= now + ttl {
            Some(value)
        } else {
            None
        }),
{
}

/// Writing one key changes no read of another key.
pub proof fn law_write_isolation(
    m: Map<Seq<u8>, EntryView>,
    key: Seq<u8>,
    entry: EntryView,
    other: Seq<u8>,
    at: u128,
)
    requires
        key != other,
    ensures
        read_at(m.insert(key, entry), other, at) == read_at(m, other, at),
{
}

/// Dropping the entries expired at `now` changes no read made at `now` or later,
/// and keeps exactly the entries that have not expired.
pub proof fn law_eviction_invisible(
    m: Map<Seq<u8>, EntryView>,
    now: u128,
    key: Seq<u8>,
    later: u128,
)
    requires
        now <= later,
    ensures
        read_at(unexpired(m, now), key, later) == read_at(m, key, later),
        unexpired(m, now).contains_key(key) <==> (m.contains_key(key) && m[key].ttl >= now),
{
}

/// Evicting twice at the same instant is evicting once.
pub proof fn law_eviction_idempotent(m: Map<Seq<u8>, EntryView>, now: u128)
    ensures
        unexpired(unexpired(m, now), now) == unexpired(m, now),
{
    assert(unexpired(unexpired(m, now), now) =~= unexpired(m, now));
}

/// Every key goes to one shard among those there are, the same one each time.
pub proof fn law_routing(key: Seq<u8>, same: Seq<u8>, shard_count: usize)
    requires
        shard_count > 0,
        same == key,
    ensures
        0 <= shard_of(key, shard_count) < shard_count,
        shard_of(same, shard_count) == shard_of(key, shard_count),
{
}

/// An operation on a shard, as plain values: a write, or an eviction at an instant.
pub enum ShardOp {
    Write { key: Seq<u8>, entry: EntryView },
    Evict { now: u128 },
}

/// The map after one operation: what `set_at` and `evict_expired_at` make of it.
pub open spec fn apply_op(m: Map<Seq<u8>, EntryView>, op: ShardOp) -> Map<Seq<u8>, EntryView> {
    match op {
        ShardOp::Write { key, entry } => m.insert(key, entry),
        ShardOp::Evict { now } => unexpired(m, now),
    }
}

/// The map after a sequence of operations, first to last.
pub open spec fn apply_ops(m: Map<Seq<u8>, EntryView>, ops: Seq<ShardOp>) -> Map<
    Seq<u8>,
    EntryView,
>
    decreases ops.len(),
{
    if ops.len() == 0 {
        m
    } else {
        apply_op(apply_ops(m, ops.drop_last()), ops.last())
    }
}

/// Whether an operation writes `key`.
pub open spec fn op_writes(op: ShardOp, key: Seq<u8>) -> bool {
    op matches ShardOp::Write { key: k, .. } && k == key
}

/// Whether some operation of `ops` writes `key`.
pub open spec fn writes_key(ops: Seq<ShardOp>, key: Seq<u8>) -> bool {
    exists|i: int| 0 <= i < ops.len() && #[trigger] op_writes(ops[i], key)
}

/// Once a read of `key` finds nothing, later reads find nothing either, even after
/// an eviction or a write of another key.
pub proof fn law_absence_lasts(
    m: Map<Seq<u8>, EntryView>,
    key: Seq<u8>,
    t1: u128,
    t2: u128,
    evicted_at: u128,
    other: Seq<u8>,
    entry: EntryView,
)
    requires
        t1 <= t2,
        read_at(m, key, t1) is None,
        other != key,
    ensures
        read_at(m, key, t2) is None,
        read_at(unexpired(m, evicted_at), key, t2) is None,
        read_at(m.insert(other, entry), key, t2) is None,
{
}

/// A read of `key` that finds nothing keeps finding nothing, at any later instant,
/// through any sequence of writes of other keys and evictions, until `key` is
/// written again.
pub proof fn law_absence_lasts_until_written(
    m: Map<Seq<u8>, EntryView>,
    ops: Seq<ShardOp>,
    key: Seq<u8>,
    t1: u128,
    t2: u128,
)
    requires
        t1 <= t2,
        read_at(m, key, t1) is None,
        !writes_key(ops, key),
    ensures
        read_at(apply_ops(m, ops), key, t2) is None,
    decreases ops.len(),
{
    if ops.len() > 0 {
        let init = ops.drop_last();
        assert(!writes_key(init, key)) by {
            if writes_key(init, key) {
                let i = choose|i: int| 0 <= i < init.len() && #[trigger] op_writes(init[i], key);
                assert(op_writes(ops[i], key));
            }
        }
        assert(!op_writes(ops.last(), key)) by {
            if op_writes(ops.last(), key) {
                assert(op_writes(ops[ops.len() - 1], key));
            }
        }
        law_absence_lasts_until_written(m, init, key, t1, t1);
    }
}

/// Shards as plain values: shard `j` holds only keys that route to `j`.
pub open spec fn routed(shards: Seq<Map<Seq<u8>, EntryView>>, n: usize) -> bool {
    &&& shards.len() == n
    &&& forall|j: int, k: Seq<u8>|
        0 <= j < n && #[trigger] shards[j].contains_key(k) ==> shard_of(k, n) == j
}

/// `n` empty shards.
pub open spec fn empty_shards(n: usize) -> Seq<Map<Seq<u8>, EntryView>> {
    Seq::new(n as nat, |j: int| Map::<Seq<u8>, EntryView>::empty())
}

/// A write to the sharded store: the shard that the key routes to gets it.
pub open spec fn sharded_write(
    shards: Seq<Map<Seq<u8>, EntryView>>,
    n: usize,
    key: Seq<u8>,
    entry: EntryView,
) -> Seq<Map<Seq<u8>, EntryView>> {
    let j = shard_of(key, n);
    shards.update(j, shards[j].insert(key, entry))
}

/// A sequence of writes to the sharded store, first to last.
pub open spec fn sharded_writes(
    shards: Seq<Map<Seq<u8>, EntryView>>,
    n: usize,
    writes: Seq<(Seq<u8>, EntryView)>,
) -> Seq<Map<Seq<u8>, EntryView>>
    decreases writes.len(),
{
    if writes.len() == 0 {
        shards
    } else {
        let before = sharded_writes(shards, n, writes.drop_last());
        sharded_write(before, n, writes.last().0, writes.last().1)
    }
}

/// Fresh shards hold nothing, so every key is where it routes.
pub proof fn law_shards_start_routed(n: usize)
    ensures
        routed(empty_shards(n), n),
{
}

/// A write keeps every key in the shard it routes to; afterwards exactly that shard
/// holds the key, with the new entry in place of any old one.
pub proof fn law_sharded_write(
    shards: Seq<Map<Seq<u8>, EntryView>>,
    n: usize,
    key: Seq<u8>,
    entry: EntryView,
)
    requires
        n > 0,
        routed(shards, n),
    ensures
        routed(sharded_write(shards, n, key, entry), n),
        forall|j: int|
            0 <= j < n ==> (#[trigger] sharded_write(shards, n, key, entry)[j].contains_key(key)
                <==> j == shard_of(key, n)),
        sharded_write(shards, n, key, entry)[shard_of(key, n)][key] == entry,
{
    let w = sharded_write(shards, n, key, entry);
    let s = shard_of(key, n);
    assert forall|j: int, k: Seq<u8>| 0 <= j < n && #[trigger] w[j].contains_key(k) implies shard_of(k, n) == j by {
        if j != s {
            assert(shards[j].contains_key(k));
        } else if k != key {
            assert(shards[j].contains_key(k));
        }
    }
    assert forall|j: int| 0 <= j < n implies (#[trigger] w[j].contains_key(key) <==> j == s) by {
        if j != s && w[j].contains_key(key) {
            assert(shards[j].contains_key(key));
        }
    }
}

/// Evicting one shard keeps every key in the shard it routes to.
pub proof fn law_sharded_evict(
    shards: Seq<Map<Seq<u8>, EntryView>>,
    n: usize,
    j: int,
    now: u128,
)
    requires
        routed(shards, n),
        0 <= j < n,
    ensures
        routed(shards.update(j, unexpired(shards[j], now)), n),
{
    let e = shards.update(j, unexpired(shards[j], now));
    assert forall|i: int, k: Seq<u8>| 0 <= i < n && #[trigger] e[i].contains_key(k) implies shard_of(k, n) == i by {
        assert(shards[i].contains_key(k));
    }
}

/// From fresh shards, after any sequence of writes, every key is in the shard it
/// routes to and in no other: a key never lives in two shards.
pub proof fn law_sharded_writes_keep_routing(n: usize, writes: Seq<(Seq<u8>, EntryView)>)
    requires
        n > 0,
    ensures
        routed(sharded_writes(empty_shards(n), n, writes), n),
    decreases writes.len(),
{
    if writes.len() > 0 {
        law_sharded_writes_keep_routing(n, writes.drop_last());
        law_sharded_write(
            sharded_writes(empty_shards(n), n, writes.drop_last()),
            n,
            writes.last().0,
            writes.last().1,
        );
    }
}

/// Whether two byte slices are equal.
fn slices_equal(a: &[u8], b: &[u8]) -> (r: bool)
    ensures
        r == (a@ == b@),
{
    if a.len() != b.len() {
        return false;
    }
    let n = a.len();
    let mut i: usize = 0;
    while i < n
        invariant
            n == a@.len() == b@.len(),
            i <= n,
            forall|j: int| 0 <= j < i ==> a@[j] == b@[j],
        decreases n - i,
    {
        if a[i] != b[i] {
            return false;
        }
        i = i + 1;
    }
    assert(a@ =~= b@);
    true
}

/// The position of `key` in a group, if it is there.
fn find_slot(b: &Vec<Slot>, key: &[u8]) -> (r: Option<usize>)
    ensures
        match r {
            Some(i) => i < b@.len() && slot_key(b@[i as int]) == key@,
            None => forall|i: int| 0 <= i < b@.len() ==> #[trigger] slot_key(b@[i]) != key@,
        },
{
    let n = b.len();
    let mut i: usize = 0;
    while i < n
        invariant
            n == b@.len(),
            i <= n,
            forall|j: int| 0 <= j < i ==> #[trigger] slot_key(b@[j]) != key@,
        decreases n - i,
    {
        if slices_equal(bytes_as_slice(&b[i].key), key) {
            return Some(i);
        }
        i = i + 1;
    }
    None
}

} // verus!
