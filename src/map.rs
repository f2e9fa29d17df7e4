use vstd::prelude::*;
use vstd::arithmetic::div_mod::{lemma_small_mod, lemma_mod_self_0};
use vstd::arithmetic::power2::{lemma2_to64, lemma_pow2_strictly_increases, lemma_pow2_unfold, pow2};
use vstd::set_lib::{lemma_int_range, lemma_len_subset, lemma_map_size, set_int_range};
use atomic::Atomic;
use crate::array::ConcurrentArray;
use crate::cell::{
    atomic_word, compare_exchange_word, create_table, load_word, unpack_spec, lemma_zero_is_empty,
    Entry, DELETED_KEY, EMPTY_KEY, MIN_KEY,
};
use crate::util::{fnv_hash, hash};

verus! {

/// Capacity of a map made by `default`.
pub const DEFAULT_CAPACITY: usize = 2048;
/// Largest capacity a map accepts: descriptors are 16-bit.
pub const MAX_CAPACITY: usize = 32767;
/// Smallest number of cells a table is given.
pub const MIN_TABLE_SIZE: usize = 8;
/// Cells per bucket: the table is a run of buckets of this many cells.
pub const BUCKET_CAPACITY: usize = 8;

/// Bucket holding cell `index` of a table of `size_mask + 1` cells.
fn get_bucket_index(index: usize, size_mask: usize) -> (r: usize)
    ensures
        r == (index & size_mask) >> 3usize,
{
    (index & size_mask) >> 3
}

/// Position of cell `index` within its bucket.
fn get_entry_index(index: usize) -> (r: usize)
    ensures
        r == index & 7usize,
        r < BUCKET_CAPACITY,
{
    assert(index & 7usize < 8usize) by (bit_vector);
    index & 7
}

/// Where cell `index` lies in a table laid out bucket after bucket; in a
/// table whose size is a power of two this is `index` itself.
fn get_entry(index: usize, size_mask: usize) -> (r: usize)
    requires
        index <= size_mask,
        size_mask < 0x10000,
        size_mask & ((size_mask + 1) as usize) == 0,
    ensures
        r == index,
{
    let bucket = get_bucket_index(index, size_mask);
    let entry = get_entry_index(index);
    assert(index <= size_mask && size_mask < 0x10000usize && size_mask & ((size_mask + 1usize) as usize) == 0usize
        ==> ((index & size_mask) >> 3usize) * 8usize + (index & 7usize) == index) by (bit_vector);
    bucket * BUCKET_CAPACITY + entry
}

/// What a map holds, seen from outside: its live entries, the keys its key
/// store has recorded, in order, and its two limits.
pub struct MapModel {
    pub entries: Map<Seq<char>, u16>,
    pub keys: Seq<Seq<char>>,
    pub capacity: nat,
    pub key_capacity: nat,
}

impl MapModel {
    /// Whether inserting `k` succeeds: the map is below its capacity, the
    /// key is new and the key store has room.
    pub open spec fn can_insert(self, k: Seq<char>) -> bool {
        &&& self.entries.len() < self.capacity
        &&& !self.entries.contains_key(k)
        &&& self.keys.len() < self.key_capacity
    }

    pub open spec fn inserted(self, k: Seq<char>, v: u16) -> MapModel {
        MapModel { entries: self.entries.insert(k, v), keys: self.keys.push(k), ..self }
    }

    pub open spec fn updated(self, k: Seq<char>, v: u16) -> MapModel {
        MapModel { entries: self.entries.insert(k, v), ..self }
    }

    pub open spec fn removed(self, k: Seq<char>) -> MapModel {
        MapModel { entries: self.entries.remove(k), ..self }
    }

    /// The value stored under `k`, if any.
    pub open spec fn lookup(self, k: Seq<char>) -> Option<u16> {
        if self.entries.contains_key(k) {
            Some(self.entries[k])
        } else {
            None
        }
    }

    /// Entries are finite, within capacity, and the key store within its own.
    pub open spec fn valid(self) -> bool {
        &&& self.entries.dom().finite()
        &&& self.entries.len() <= self.capacity
        &&& self.keys.len() <= self.key_capacity
        &&& self.capacity <= self.key_capacity
    }

    /// The state of a map just made: nothing inserted, nothing stored.
    pub open spec fn is_fresh(self) -> bool {
        &&& self.valid()
        &&& self.entries == Map::<Seq<char>, u16>::empty()
        &&& self.keys == Seq::<Seq<char>>::empty()
    }
}

/// The state reached by inserting the pairs of `kvs` in order; each insert
/// that is refused changes nothing.
pub open spec fn insert_all(m: MapModel, kvs: Seq<(Seq<char>, u16)>) -> MapModel
    decreases kvs.len(),
{
    if kvs.len() == 0 {
        m
    } else {
        let p = insert_all(m, kvs.drop_last());
        let (k, v) = kvs.last();
        if p.can_insert(k) {
            p.inserted(k, v)
        } else {
            p
        }
    }
}

/// No key occurs twice among the pairs.
pub open spec fn unique_keys(kvs: Seq<(Seq<char>, u16)>) -> bool {
    forall|i: int, j: int| 0 <= i < j < kvs.len() ==> kvs[i].0 != kvs[j].0
}

/// Inserting distinct keys into a fresh map whose capacity is at least their
/// number succeeds for every key: afterwards each key is found with its
/// value, and the map holds exactly that many entries.
pub proof fn lemma_round_trip(m: MapModel, kvs: Seq<(Seq<char>, u16)>)
    requires
        m.is_fresh(),
        unique_keys(kvs),
        kvs.len() <= m.capacity,
    ensures
        insert_all(m, kvs).valid(),
        insert_all(m, kvs).capacity == m.capacity,
        insert_all(m, kvs).key_capacity == m.key_capacity,
        insert_all(m, kvs).entries.len() == kvs.len(),
        insert_all(m, kvs).keys.len() == kvs.len(),
        forall|i: int| 0 <= i < kvs.len() ==> #[trigger] insert_all(m, kvs).lookup(kvs[i].0) == Some(kvs[i].1),
        forall|k: Seq<char>| #[trigger] insert_all(m, kvs).entries.contains_key(k) ==> exists|i: int|
            0 <= i < kvs.len() && kvs[i].0 == k,
    decreases kvs.len(),
{
    if kvs.len() > 0 {
        let pre = kvs.drop_last();
        assert(unique_keys(pre));
        lemma_round_trip(m, pre);
        let p = insert_all(m, pre);
        let (k, v) = kvs.last();
        assert(!p.entries.contains_key(k)) by {
            if p.entries.contains_key(k) {
                let i = choose|i: int| 0 <= i < pre.len() && pre[i].0 == k;
                assert(pre[i] == kvs[i]);
                assert(kvs[i].0 != kvs[kvs.len() - 1].0);
            }
        }
        assert(p.can_insert(k));
        let q = insert_all(m, kvs);
        assert(q == p.inserted(k, v));
        assert forall|i: int| 0 <= i < kvs.len() implies #[trigger] q.lookup(kvs[i].0) == Some(kvs[i].1) by {
            if i < kvs.len() - 1 {
                assert(pre[i] == kvs[i]);
                assert(p.lookup(pre[i].0) == Some(pre[i].1));
            }
        }
        assert forall|kk: Seq<char>| #[trigger] q.entries.contains_key(kk) implies exists|i: int|
            0 <= i < kvs.len() && kvs[i].0 == kk by {
            if kk != k {
                let i = choose|i: int| 0 <= i < pre.len() && pre[i].0 == kk;
                assert(kvs[i].0 == kk);
            } else {
                assert(kvs[kvs.len() - 1].0 == kk);
            }
        }
    }
}

/// A map filled to its capacity refuses one more key, whatever it is.
pub proof fn lemma_capacity_bound(m: MapModel, kvs: Seq<(Seq<char>, u16)>, k: Seq<char>)
    requires
        m.is_fresh(),
        unique_keys(kvs),
        kvs.len() == m.capacity,
    ensures
        !insert_all(m, kvs).can_insert(k),
{
    lemma_round_trip(m, kvs);
}

/// After a successful insert of `k` with `v1`, an update of `k` to `v2`
/// returns `v1`, and `k` is then found with `v2`.
pub proof fn lemma_update_overwrites(m: MapModel, k: Seq<char>, v1: u16, v2: u16)
    requires
        m.can_insert(k),
    ensures
        m.inserted(k, v1).lookup(k) == Some(v1),
        m.inserted(k, v1).updated(k, v2).lookup(k) == Some(v2),
{
}

/// After a successful insert of `k` and its removal, `k` is absent; a
/// second insert of `k` then succeeds, given room in the key store for a
/// second copy of the key, and `k` is found with the new value.
pub proof fn lemma_remove_then_reinsert(m: MapModel, k: Seq<char>, v: u16, v2: u16)
    requires
        m.valid(),
        m.can_insert(k),
        m.keys.len() + 1 < m.key_capacity,
    ensures
        m.inserted(k, v).entries.contains_key(k),
        m.inserted(k, v).removed(k).lookup(k) == None::<u16>,
        m.inserted(k, v).removed(k).can_insert(k),
        m.inserted(k, v).removed(k).inserted(k, v2).lookup(k) == Some(v2),
{
    let m2 = m.inserted(k, v).removed(k);
    assert(m2.entries =~= m.entries);
}

/// A second insert of a present key is refused, and the first value stays.
pub proof fn lemma_duplicate_rejected(m: MapModel, k: Seq<char>, v1: u16, v2: u16)
    requires
        m.can_insert(k),
    ensures
        !m.inserted(k, v1).can_insert(k),
        m.inserted(k, v1).lookup(k) == Some(v1),
{
}

/// Removing one key leaves every other key as it was.
pub proof fn lemma_remove_keeps_others(m: MapModel, k: Seq<char>, other: Seq<char>)
    requires
        k != other,
    ensures
        m.removed(k).lookup(other) == m.lookup(other),
{
}

/// Number of cells allocated for a map of capacity `c`: the smallest power of
/// two, and at least `MIN_TABLE_SIZE`, that is no less than `c / 0.6`.
pub open spec fn table_size_for(c: nat) -> nat {
    doubled_until(MIN_TABLE_SIZE as nat, (5 * c + 2) / 3)
}

/// The first of `a, 2a, 4a, ...` that reaches `target`.
pub open spec fn doubled_until(a: nat, target: nat) -> nat
    decreases (if a < target { target - a } else { 0 }),
{
    if a >= target || a == 0 {
        a
    } else {
        doubled_until(2 * a, target)
    }
}

/// A fixed-capacity map from string keys to 2-byte values. Keys live in an
/// append-only key store; each cell of the open-addressed table packs the
/// key's hash, its key-store offset (plus `MIN_KEY`) and the value into one
/// atomic word. Removal leaves a tombstone in the cell.
pub struct HashMap {
    table: Vec<Atomic<u64>>,
    key_store: ConcurrentArray<String>,
    size_mask: usize,
    capacity: usize,
    count: usize,
    entries: Ghost<Map<Seq<char>, u16>>,
}

impl View for HashMap {
    type V = MapModel;

    closed spec fn view(&self) -> MapModel {
        MapModel {
            entries: self.entries@,
            keys: self.key_store@.map_values(|s: String| s@),
            capacity: self.capacity as nat,
            key_capacity: self.key_store.capacity_spec(),
        }
    }
}

impl HashMap {
    spec fn size(&self) -> int {
        self.table@.len() as int
    }

    spec fn cell(&self, i: int) -> Entry {
        unpack_spec(atomic_word(self.table@[i]))
    }

    spec fn is_empty_at(&self, i: int) -> bool {
        self.cell(i).key_offset == EMPTY_KEY
    }

    spec fn occupied(&self, i: int) -> bool {
        self.cell(i).key_offset >= MIN_KEY
    }

    spec fn key_at(&self, i: int) -> Seq<char> {
        self.key_store@[self.cell(i).key_offset - MIN_KEY]@
    }

    spec fn home(&self, k: Seq<char>) -> int {
        fnv_hash(k) as int % self.size()
    }

    /// The cell reached after `t` steps of probing from `h`.
    spec fn probe(&self, h: int, t: int) -> int {
        if h + t < self.size() {
            h + t
        } else {
            h + t - self.size()
        }
    }

    /// Steps of probing from `h` to reach `i`.
    spec fn dist(&self, h: int, i: int) -> int {
        if i >= h {
            i - h
        } else {
            i + self.size() - h
        }
    }

    /// No cell among the first `d` probed from `h` is empty.
    spec fn path_clear(&self, h: int, d: int) -> bool {
        forall|t: int| 0 <= t < d ==> !#[trigger] self.is_empty_at(self.probe(h, t))
    }

    spec fn cell_ok(&self, i: int) -> bool {
        self.occupied(i) ==> {
            &&& self.cell(i).key_offset - MIN_KEY < self.key_store@.len()
            &&& self.cell(i).key_hash == fnv_hash(self.key_at(i))
            &&& self.entries@.contains_key(self.key_at(i))
            &&& self.entries@[self.key_at(i)] == self.cell(i).value
            &&& self.path_clear(self.home(self.key_at(i)), self.dist(self.home(self.key_at(i)), i))
        }
    }

    /// A well-formed map's state is valid.
    pub proof fn lemma_valid(&self)
        requires
            self.wf(),
        ensures
            self@.valid(),
    {
    }

    pub closed spec fn wf(&self) -> bool {
        &&& self.size() == self.size_mask + 1
        &&& self.size_mask & ((self.size_mask + 1) as usize) == 0
        &&& MIN_TABLE_SIZE <= self.size() <= 0x10000
        &&& self.capacity + 2 <= self.size()
        &&& self.capacity <= MAX_CAPACITY
        &&& self.key_store.wf()
        &&& self.key_store.capacity_spec() == self.size() - 2
        &&& self.key_store@.len() <= self.key_store.capacity_spec()
        &&& self.capacity <= self.key_store.capacity_spec()
        &&& forall|i: int| 0 <= i < self.size() ==> #[trigger] self.cell_ok(i)
        &&& forall|k: Seq<char>| #[trigger]
            self.entries@.contains_key(k) ==> exists|i: int|
                0 <= i < self.size() && self.occupied(i) && #[trigger] self.key_at(i) == k
        &&& forall|i: int, j: int|
            0 <= i < self.size() && 0 <= j < self.size() && self.occupied(i) && self.occupied(j)
                && #[trigger] self.key_at(i) == #[trigger] self.key_at(j) ==> i == j
        &&& self.entries@.dom().finite()
        &&& self.count == self.entries@.len()
        &&& self.count <= self.capacity
    }

    proof fn lemma_probe_dist(&self, h: int, i: int)
        requires
            0 <= h < self.size(),
            0 <= i < self.size(),
        ensures
            0 <= self.dist(h, i) < self.size(),
            self.probe(h, self.dist(h, i)) == i,
    {
    }

    /// If no probed cell among the first `t` holds `k` and either the next
    /// one is empty or all cells were probed, `k` is absent.
    proof fn lemma_absent(&self, k: Seq<char>, t: int)
        requires
            self.wf(),
            0 <= t <= self.size(),
            forall|s: int|
                0 <= s < t ==> !(self.occupied(self.probe(self.home(k), s)) && #[trigger] self.key_at(
                    self.probe(self.home(k), s),
                ) == k),
            t == self.size() || self.is_empty_at(self.probe(self.home(k), t)),
        ensures
            !self.entries@.contains_key(k),
    {
        let h = self.home(k);
        if self.entries@.contains_key(k) {
            let i = choose|i: int| 0 <= i < self.size() && self.occupied(i) && #[trigger] self.key_at(i) == k;
            assert(self.cell_ok(i));
            self.lemma_probe_dist(h, i);
            let d = self.dist(h, i);
            if d < t {
                assert(self.key_at(self.probe(h, d)) == k);
            } else if d == t {
                assert(self.is_empty_at(i));
            } else {
                assert(!self.is_empty_at(self.probe(h, t)));
            }
        }
    }
    fn _next_index(&self, index: usize) -> (r: usize)
        requires
            self.wf(),
            index < self.size(),
        ensures
            r == (if index + 1 == self.size() { 0 } else { index + 1 }),
    {
        let size = self.size_mask + 1;
        proof {
            if index + 1 == size {
                lemma_mod_self_0(size as int);
            } else {
                lemma_small_mod((index + 1) as nat, size as nat);
            }
        }
        (index + 1) % size
    }

    /// Hashes the key and derives its home cell: `(hash, home)`.
    fn _hash_and_index(&self, key: &String) -> (r: (u32, usize))
        requires
            self.wf(),
        ensures
            r.0 == fnv_hash(key@),
            r.1 == self.home(key@),
            r.1 < self.size(),
    {
        let key_hash = hash(key.as_str());
        (key_hash, (key_hash as usize) % (self.size_mask + 1))
    }

    /// Reads the cell at `index`.
    fn _load(&self, index: usize) -> (r: Entry)
        requires
            self.wf(),
            index < self.size(),
        ensures
            r == self.cell(index as int),
    {
        Entry::unpack(load_word(&self.table[get_entry(index, self.size_mask)]))
    }

    /// Whether the occupied cell `e`, found at `index`, holds `key`.
    fn _holds_key(&self, index: usize, e: Entry, key: &String, key_hash: u32) -> (r: bool)
        requires
            self.wf(),
            index < self.size(),
            e == self.cell(index as int),
            key_hash == fnv_hash(key@),
        ensures
            r == (self.occupied(index as int) && self.key_at(index as int) == key@),
    {
        assert(self.cell_ok(index as int));
        if e.key_offset < MIN_KEY || e.key_hash != key_hash {
            return false;
        }
        match self.key_store.get((e.key_offset - MIN_KEY) as usize) {
            Some(existing) => *existing == *key,
            None => false,
        }
    }

    /// Finds the cell holding `key`.
    fn _find_entry(&self, key: &String) -> (r: Option<usize>)
        requires
            self.wf(),
        ensures
            match r {
                Some(i) => i < self.size() && self.occupied(i as int) && self.key_at(i as int)
                    == key@,
                None => !self.entries@.contains_key(key@),
            },
    {
        let (key_hash, home) = self._hash_and_index(key);
        let size = self.size_mask + 1;
        let mut index = home;
        let mut t: usize = 0;
        while t < size
            invariant
                self.wf(),
                size == self.size(),
                home == self.home(key@),
                key_hash == fnv_hash(key@),
                t <= size,
                t < size ==> index == self.probe(home as int, t as int),
                forall|s: int|
                    0 <= s < t ==> !(self.occupied(self.probe(home as int, s)) && #[trigger] self.key_at(
                        self.probe(home as int, s),
                    ) == key@),
            decreases size - t,
        {
            let e = self._load(index);
            if e.key_offset == EMPTY_KEY {
                proof {
                    self.lemma_absent(key@, t as int);
                }
                return None;
            }
            if self._holds_key(index, e, key, key_hash) {
                return Some(index);
            }
            index = self._next_index(index);
            t = t + 1;
        }
        proof {
            self.lemma_absent(key@, t as int);
        }
        None
    }

    /// The value stored under `key`, or `None` when the key is absent.
    pub fn get(&self, key: &String) -> (r: Option<u16>)
        requires
            self.wf(),
        ensures
            r == self@.lookup(key@),
    {
        match self._find_entry(key) {
            Some(i) => {
                proof {
                    assert(self.cell_ok(i as int));
                }
                Some(self._load(i).value)
            },
            None => None,
        }
    }

    /// Whether `key` is present.
    pub fn contains_key(&self, key: &String) -> (r: bool)
        requires
            self.wf(),
        ensures
            r == self@.entries.contains_key(key@),
    {
        match self._find_entry(key) {
            Some(i) => {
                proof {
                    assert(self.cell_ok(i as int));
                }
                true
            },
            None => false,
        }
    }

    /// Number of entries.
    pub fn len(&self) -> (r: usize)
        requires
            self.wf(),
        ensures
            r == self@.entries.len(),
    {
        self.count
    }

    /// Capacity the map was made with: how many entries it accepts.
    pub fn effective_capacity(&self) -> (r: usize)
        requires
            self.wf(),
        ensures
            r == self@.capacity,
    {
        self.capacity
    }

    /// The key recorded at position `index` of the key store, in order of
    /// insertion.
    pub fn get_key(&self, index: usize) -> (r: Option<&String>)
        requires
            self.wf(),
        ensures
            match r {
                Some(k) => index < self@.keys.len() && k@ == self@.keys[index as int],
                None => index >= self@.keys.len(),
            },
    {
        self.key_store.get(index)
    }
    proof fn lemma_dist_probe(&self, h: int, t: int)
        requires
            0 <= h < self.size(),
            0 <= t < self.size(),
        ensures
            0 <= self.probe(h, t) < self.size(),
            self.dist(h, self.probe(h, t)) == t,
    {
    }

    /// A map below its capacity always has a cell that is not occupied.
    proof fn lemma_not_all_occupied(&self, h: int)
        requires
            self.wf(),
            self.count < self.capacity,
            0 <= h < self.size(),
        ensures
            exists|s: int| 0 <= s < self.size() && !#[trigger] self.occupied(self.probe(h, s)),
    {
        if forall|s: int| 0 <= s < self.size() ==> #[trigger] self.occupied(self.probe(h, s)) {
        let dom = set_int_range(0, self.size());
        let f = |i: int| self.key_at(i);
        assert forall|i: int| 0 <= i < self.size() implies self.occupied(i) by {
            self.lemma_probe_dist(h, i);
            assert(self.occupied(self.probe(h, self.dist(h, i))));
        }
        assert(vstd::relations::injective_on(f, dom));
        lemma_int_range(0, self.size());
        lemma_map_size(dom, dom.map(f), f);
        assert forall|k: Seq<char>| dom.map(f).contains(k) implies self.entries@.dom().contains(k) by {
            let i = choose|i: int| dom.contains(i) && f(i) == k;
            assert(self.cell_ok(i));
        }
        lemma_len_subset(dom.map(f), self.entries@.dom());
        }
    }

    /// Finds the cell where `key` would go: `None` when the key is present,
    /// otherwise the first tombstone, or else the first empty cell, on its
    /// probe path.
    fn _find_empty_entry(&self, key: &String, key_hash: u32, home: usize) -> (r: Option<usize>)
        requires
            self.wf(),
            self.count < self.capacity,
            key_hash == fnv_hash(key@),
            home == self.home(key@),
        ensures
            match r {
                Some(i) => i < self.size() && !self.occupied(i as int) && !self.entries@.contains_key(
                    key@,
                ) && self.path_clear(home as int, self.dist(home as int, i as int)),
                None => self.entries@.contains_key(key@),
            },
    {
        let size = self.size_mask + 1;
        let mut index = home;
        let mut t: usize = 0;
        let mut slot: Option<usize> = None;
        while t < size
            invariant
                self.wf(),
                self.count < self.capacity,
                size == self.size(),
                home == self.home(key@),
                home < size,
                key_hash == fnv_hash(key@),
                t <= size,
                t < size ==> index == self.probe(home as int, t as int),
                forall|s: int|
                    0 <= s < t ==> !(self.occupied(self.probe(home as int, s)) && #[trigger] self.key_at(
                        self.probe(home as int, s),
                    ) == key@),
                self.path_clear(home as int, t as int),
                match slot {
                    Some(x) => x < size && !self.occupied(x as int) && self.path_clear(
                        home as int,
                        self.dist(home as int, x as int),
                    ),
                    None => forall|s: int|
                        0 <= s < t ==> #[trigger] self.occupied(self.probe(home as int, s)),
                },
            decreases size - t,
        {
            let e = self._load(index);
            if e.key_offset == EMPTY_KEY {
                proof {
                    self.lemma_absent(key@, t as int);
                    self.lemma_dist_probe(home as int, t as int);
                }
                match slot {
                    Some(x) => {
                        return Some(x);
                    },
                    None => {
                        return Some(index);
                    },
                }
            }
            if self._holds_key(index, e, key, key_hash) {
                proof {
                    assert(self.cell_ok(index as int));
                }
                return None;
            }
            if e.key_offset == DELETED_KEY && slot.is_none() {
                proof {
                    self.lemma_dist_probe(home as int, t as int);
                }
                slot = Some(index);
            }
            proof {
                assert(!self.is_empty_at(self.probe(home as int, t as int)));
            }
            index = self._next_index(index);
            t = t + 1;
        }
        proof {
            self.lemma_absent(key@, t as int);
        }
        match slot {
            Some(x) => Some(x),
            None => {
                proof {
                    self.lemma_not_all_occupied(home as int);
                }
                None
            },
        }
    }

    /// Inserts `key` with `value`. Fails, changing nothing, when the map is
    /// at capacity, the key is already present or the key store is full.
    pub fn insert(&mut self, key: String, value: u16) -> (r: bool)
        requires
            old(self).wf(),
        ensures
            final(self).wf(),
            r == old(self)@.can_insert(key@),
            r ==> final(self)@ == old(self)@.inserted(key@, value),
            !r ==> final(self)@ == old(self)@,
    {
        if self.count >= self.capacity {
            return false;
        }
        let (key_hash, home) = self._hash_and_index(&key);
        let slot = match self._find_empty_entry(&key, key_hash, home) {
            Some(i) => i,
            None => {
                return false;
            },
        };
        let ghost k = key@;
        let ghost keys0 = self.key_store@;
        let ghost table0 = self.table@;
        let offset = match self.key_store.push(key) {
            Some(o) => o,
            None => {
                proof {
                    let o = old(self);
                    assert(self.key_store@ == o.key_store@);
                    assert(self.table@ == o.table@);
                    assert(self@.keys =~= o@.keys);
                    assert forall|i: int| 0 <= i < self.size() implies #[trigger] self.cell_ok(i) by {
                        assert(o.cell_ok(i));
                        if self.occupied(i) {
                            let h = o.home(o.key_at(i));
                            let d = o.dist(h, i);
                            assert forall|t: int| 0 <= t < d implies !#[trigger] self.is_empty_at(self.probe(h, t)) by {
                                assert(!o.is_empty_at(o.probe(h, t)));
                            }
                        }
                    }
                    assert forall|kk: Seq<char>| #[trigger] self.entries@.contains_key(kk) implies exists|i: int|
                        0 <= i < self.size() && self.occupied(i) && #[trigger] self.key_at(i) == kk by {
                        let j = choose|j: int| 0 <= j < o.size() && o.occupied(j) && #[trigger] o.key_at(j) == kk;
                        assert(self.key_at(j) == kk);
                    }
                    assert forall|i: int, j: int|
                        0 <= i < self.size() && 0 <= j < self.size() && self.occupied(i) && self.occupied(j)
                            && #[trigger] self.key_at(i) == #[trigger] self.key_at(j) implies i == j by {
                        assert(o.key_at(i) == o.key_at(j));
                    }
                }
                return false;
            },
        };
        let entry = Entry { key_hash, key_offset: offset as u16 + MIN_KEY, value };
        let cell = get_entry(slot, self.size_mask);
        let current = load_word(&self.table[cell]);
        let res = compare_exchange_word(&mut self.table[cell], current, entry.pack());
        if res.is_err() {
            return false;
        }
        self.count = self.count + 1;
        self.entries = Ghost(self.entries@.insert(k, value));
        proof {
            let o = old(self);
            assert(self.table@ == table0.update(slot as int, self.table@[slot as int]));
            assert(self.key_store@ == keys0.push(self.key_store@[offset as int]));
            assert(self.cell(slot as int) == entry);
            assert(self.key_at(slot as int) == k);
            assert forall|j: int| 0 <= j < self.size() && j != slot implies self.cell(j) == o.cell(j)
                by {}
            assert forall|j: int| 0 <= j < self.size() && j != slot && o.occupied(j) implies
                self.key_at(j) == o.key_at(j) by {
                assert(o.cell_ok(j));
            }
            assert forall|p: int| 0 <= p < self.size() && !o.is_empty_at(p) implies
                !self.is_empty_at(p) by {}
            assert forall|h: int, d: int|
                0 <= h < self.size() && 0 <= d <= self.size() && o.path_clear(h, d) implies self.path_clear(
                h,
                d,
            ) by {
                assert forall|t: int| 0 <= t < d implies !#[trigger] self.is_empty_at(self.probe(h, t)) by {
                    assert(!o.is_empty_at(o.probe(h, t)));
                }
            }
            assert forall|i: int| 0 <= i < self.size() implies #[trigger] self.cell_ok(i) by {
                if i == slot {
                    self.lemma_probe_dist(home as int, i);
                } else {
                    assert(o.cell_ok(i));
                    if self.occupied(i) {
                        self.lemma_probe_dist(o.home(o.key_at(i)), i);
                    }
                }
            }
            assert forall|kk: Seq<char>| #[trigger] self.entries@.contains_key(kk) implies exists|i: int|
                0 <= i < self.size() && self.occupied(i) && #[trigger] self.key_at(i) == kk by {
                if kk != k {
                    let j = choose|j: int| 0 <= j < o.size() && o.occupied(j) && #[trigger] o.key_at(j) == kk;
                    assert(self.key_at(j) == kk);
                } else {
                    assert(self.key_at(slot as int) == kk);
                }
            }
            assert forall|i: int, j: int|
                0 <= i < self.size() && 0 <= j < self.size() && self.occupied(i) && self.occupied(j)
                    && #[trigger] self.key_at(i) == #[trigger] self.key_at(j) implies i == j by {
                if i != slot && j != slot {
                    assert(o.key_at(i) == o.key_at(j));
                } else if i != slot {
                    assert(o.cell_ok(i));
                } else if j != slot {
                    assert(o.cell_ok(j));
                }
            }
            assert(self@.keys =~= old(self)@.keys.push(k));
        }
        true
    }
    /// A map that accepts up to `capacity` entries. Its table has
    /// `table_size_for(capacity)` cells, all empty, and its key store room
    /// for two keys fewer.
    pub fn with_capacity(capacity: usize) -> (r: Self)
        requires
            capacity <= MAX_CAPACITY,
        ensures
            r.wf(),
            r@.entries == Map::<Seq<char>, u16>::empty(),
            r@.keys == Seq::<Seq<char>>::empty(),
            r@.capacity == capacity,
            r@.key_capacity == table_size_for(capacity as nat) - 2,
            r@.key_capacity >= capacity,
            r@.is_fresh(),
    {
        let target: usize = (5 * capacity + 2) / 3;
        let mut size: usize = MIN_TABLE_SIZE;
        let ghost e: nat = 3;
        proof {
            lemma2_to64();
            assert(8usize & ((8usize - 1usize) as usize) == 0usize) by (bit_vector);
        }
        while size < target
            invariant
                target == (5 * capacity + 2) / 3,
                capacity <= MAX_CAPACITY,
                size == pow2(e),
                3 <= e <= 16,
                size & ((size - 1) as usize) == 0,
                doubled_until(size as nat, target as nat) == table_size_for(capacity as nat),
            decreases 16 - e,
        {
            proof {
                lemma2_to64();
                lemma_pow2_unfold(e + 1);
                assert(size & ((size - 1usize) as usize) == 0usize && 0usize < size && size <= 0x8000usize
                    ==> ((size * 2usize) as usize) & ((size * 2usize - 1usize) as usize) == 0usize) by (bit_vector);
            }
            size = size * 2;
            proof {
                e = e + 1;
            }
        }
        proof {
            assert(size & ((size - 1usize) as usize) == 0usize && size > 0usize ==> ((size - 1usize) as usize)
                & ((((size - 1usize) as usize) + 1usize) as usize) == 0usize) by (bit_vector);
            lemma2_to64();
            if e < 16 {
                lemma_pow2_strictly_increases(e, 16);
            }
        }
        let r = HashMap {
            table: create_table(size),
            key_store: ConcurrentArray::new(size - 2),
            size_mask: size - 1,
            capacity,
            count: 0,
            entries: Ghost(Map::empty()),
        };
        proof {
            lemma_zero_is_empty();
            assert forall|j: int| 0 <= j < r.size() implies #[trigger] r.cell_ok(j) by {
                assert(atomic_word(r.table@[j]) == 0);
            }
            assert(r@.keys =~= Seq::<Seq<char>>::empty());
        }
        r
    }

    /// Replaces the value of `key` by `value` and returns the previous value;
    /// `None`, changing nothing, when the key is absent.
    pub fn update(&mut self, key: &String, value: u16) -> (r: Option<u16>)
        requires
            old(self).wf(),
        ensures
            final(self).wf(),
            r == old(self)@.lookup(key@),
            r is Some ==> final(self)@ == old(self)@.updated(key@, value),
            r is None ==> final(self)@ == old(self)@,
    {
        let index = match self._find_entry(key) {
            Some(i) => i,
            None => {
                return None;
            },
        };
        let current = self._load(index);
        proof {
            assert(self.cell_ok(index as int));
        }
        let new = Entry { key_hash: current.key_hash, key_offset: current.key_offset, value };
        if self._swap_value(index, current, new) {
            Some(current.value)
        } else {
            None
        }
    }

    /// Applies `f` to the value of `key`: where `f` gives `Some(v)` the value
    /// becomes `v` and the previous value is returned. `None`, changing
    /// nothing, when the key is absent or `f` gives `None`.
    pub fn fetch_update<F: Fn(u16) -> Option<u16>>(&mut self, key: &String, f: F) -> (r: Option<u16>)
        requires
            old(self).wf(),
            forall|v: u16| f.requires((v,)),
        ensures
            final(self).wf(),
            !old(self)@.entries.contains_key(key@) ==> r is None && final(self)@ == old(self)@,
            old(self)@.entries.contains_key(key@) ==> {
                ||| exists|v: u16|
                    f.ensures((old(self)@.entries[key@],), Some(v)) && r == Some(
                        old(self)@.entries[key@],
                    ) && final(self)@ == old(self)@.updated(key@, v)
                ||| f.ensures((old(self)@.entries[key@],), None::<u16>) && r is None && final(self)@
                    == old(self)@
            },
    {
        let index = match self._find_entry(key) {
            Some(i) => i,
            None => {
                return None;
            },
        };
        let current = self._load(index);
        proof {
            assert(self.cell_ok(index as int));
        }
        match f(current.value) {
            Some(value) => {
                let new = Entry { key_hash: current.key_hash, key_offset: current.key_offset, value };
                if self._swap_value(index, current, new) {
                    Some(current.value)
                } else {
                    None
                }
            },
            None => None,
        }
    }

    /// Writes `new` over the occupied cell `index`, which holds `current`;
    /// only the value changes.
    fn _swap_value(&mut self, index: usize, current: Entry, new: Entry) -> (r: bool)
        requires
            old(self).wf(),
            index < old(self).size(),
            old(self).occupied(index as int),
            current == old(self).cell(index as int),
            new.key_hash == current.key_hash,
            new.key_offset == current.key_offset,
        ensures
            final(self).wf(),
            r,
            final(self)@ == old(self)@.updated(old(self).key_at(index as int), new.value),
    {
        let ghost k = self.key_at(index as int);
        let ghost table0 = self.table@;
        proof {
            crate::cell::lemma_pack_unpack(atomic_word(self.table@[index as int]));
        }
        let cell = get_entry(index, self.size_mask);
        let res = compare_exchange_word(&mut self.table[cell], current.pack(), new.pack());
        self.entries = Ghost(self.entries@.insert(k, new.value));
        proof {
            let o = old(self);
            assert(o.cell_ok(index as int));
            assert(self.table@ == table0.update(index as int, self.table@[index as int]));
            assert(self.cell(index as int) == new);
            assert forall|j: int| 0 <= j < self.size() && j != index implies self.cell(j) == o.cell(j)
                by {}
            assert forall|i: int| 0 <= i < self.size() implies #[trigger] self.cell_ok(i) by {
                assert(o.cell_ok(i));
                if self.occupied(i) {
                    let h = o.home(o.key_at(i));
                    let d = o.dist(h, i);
                    assert forall|t: int| 0 <= t < d implies !#[trigger] self.is_empty_at(self.probe(h, t)) by {
                        assert(!o.is_empty_at(o.probe(h, t)));
                    }
                    if i != index {
                        assert(o.key_at(i) != k);
                    }
                }
            }
            assert forall|kk: Seq<char>| #[trigger] self.entries@.contains_key(kk) implies exists|i: int|
                0 <= i < self.size() && self.occupied(i) && #[trigger] self.key_at(i) == kk by {
                let j = choose|j: int| 0 <= j < o.size() && o.occupied(j) && #[trigger] o.key_at(j) == kk;
                assert(self.key_at(j) == kk);
            }
            assert forall|i: int, j: int|
                0 <= i < self.size() && 0 <= j < self.size() && self.occupied(i) && self.occupied(j)
                    && #[trigger] self.key_at(i) == #[trigger] self.key_at(j) implies i == j by {
                assert(o.key_at(i) == o.key_at(j));
            }
            assert(self.entries@.dom() =~= o.entries@.dom());
        }
        res.is_ok()
    }

    /// Removes `key`, leaving a tombstone in its cell. Returns whether the
    /// key was present; nothing changes when it was not.
    pub fn remove(&mut self, key: &String) -> (r: bool)
        requires
            old(self).wf(),
        ensures
            final(self).wf(),
            r == old(self)@.entries.contains_key(key@),
            r ==> final(self)@ == old(self)@.removed(key@),
            !r ==> final(self)@ == old(self)@,
    {
        let index = match self._find_entry(key) {
            Some(i) => i,
            None => {
                return false;
            },
        };
        let current = self._load(index);
        let ghost k = key@;
        let ghost table0 = self.table@;
        proof {
            assert(self.cell_ok(index as int));
            crate::cell::lemma_pack_unpack(atomic_word(self.table@[index as int]));
        }
        let tombstone = Entry { key_hash: current.key_hash, key_offset: DELETED_KEY, value: current.value };
        let cell = get_entry(index, self.size_mask);
        let res = compare_exchange_word(&mut self.table[cell], current.pack(), tombstone.pack());
        if res.is_err() {
            return false;
        }
        self.count = self.count - 1;
        self.entries = Ghost(self.entries@.remove(k));
        proof {
            let o = old(self);
            assert(self.table@ == table0.update(index as int, self.table@[index as int]));
            assert(self.cell(index as int) == tombstone);
            assert forall|j: int| 0 <= j < self.size() && j != index implies self.cell(j) == o.cell(j)
                by {}
            assert forall|i: int| 0 <= i < self.size() implies #[trigger] self.cell_ok(i) by {
                assert(o.cell_ok(i));
                if self.occupied(i) {
                    let h = o.home(o.key_at(i));
                    let d = o.dist(h, i);
                    assert forall|t: int| 0 <= t < d implies !#[trigger] self.is_empty_at(self.probe(h, t)) by {
                        assert(!o.is_empty_at(o.probe(h, t)));
                    }
                    assert(o.key_at(i) != k);
                }
            }
            assert forall|kk: Seq<char>| #[trigger] self.entries@.contains_key(kk) implies exists|i: int|
                0 <= i < self.size() && self.occupied(i) && #[trigger] self.key_at(i) == kk by {
                let j = choose|j: int| 0 <= j < o.size() && o.occupied(j) && #[trigger] o.key_at(j) == kk;
                assert(self.key_at(j) == kk);
            }
            assert forall|i: int, j: int|
                0 <= i < self.size() && 0 <= j < self.size() && self.occupied(i) && self.occupied(j)
                    && #[trigger] self.key_at(i) == #[trigger] self.key_at(j) implies i == j by {
                assert(o.key_at(i) == o.key_at(j));
            }
        }
        true
    }
}

impl Default for HashMap {
    /// A map of capacity `DEFAULT_CAPACITY`.
    fn default() -> (r: Self)
        ensures
            r.wf(),
            r@.is_fresh(),
            r@.capacity == DEFAULT_CAPACITY,
    {
        HashMap::with_capacity(DEFAULT_CAPACITY)
    }
}

} // verus!
