use vstd::prelude::*;
use vstd::arithmetic::div_mod::{lemma_small_mod, lemma_mod_self_0};
use vstd::set_lib::{lemma_len_subset, set_int_range, lemma_int_range};
use atomic::Atomic;
use crate::cell::{atomic_word, compare_exchange_word, create_table, load_word, store_word};
use crate::util::{fnv_hash, hash};

verus! {

/// State of a key-store slot. `Inserting` and `Occupied` carry the hash of
/// the slot's key.
#[derive(Clone, Copy, PartialEq, Eq, Structural)]
pub enum HashState {
    Empty,
    Deleted,
    Inserting(u32),
    Occupied(u32),
}

pub open spec fn state_word_spec(s: HashState) -> u64 {
    match s {
        HashState::Empty => 0,
        HashState::Deleted => 1,
        HashState::Inserting(h) => ((h as u64) << 32u64) | 2,
        HashState::Occupied(h) => ((h as u64) << 32u64) | 3,
    }
}

/// Reads a state word: the low half is the tag, the high half the hash.
/// Tags other than the four written here read as `Empty`.
pub open spec fn state_of_word(w: u64) -> HashState {
    let tag = w & 0xffff_ffffu64;
    let h = (w >> 32u64) as u32;
    if tag == 1 {
        HashState::Deleted
    } else if tag == 2 {
        HashState::Inserting(h)
    } else if tag == 3 {
        HashState::Occupied(h)
    } else {
        HashState::Empty
    }
}

impl HashState {
    pub fn to_word(self) -> (r: u64)
        ensures
            r == state_word_spec(self),
            state_of_word(r) == self,
    {
        match self {
            HashState::Empty => {
                assert((0u64 & 0xffff_ffffu64) == 0u64) by (bit_vector);
                0
            },
            HashState::Deleted => {
                assert((1u64 & 0xffff_ffffu64) == 1u64) by (bit_vector);
                1
            },
            HashState::Inserting(h) => {
                let hw = h as u64;
                assert(hw < 0x1_0000_0000u64 ==> (((hw << 32u64) | 2u64) & 0xffff_ffffu64) == 2u64
                    && (((hw << 32u64) | 2u64) >> 32u64) == hw) by (bit_vector);
                (hw << 32u64) | 2
            },
            HashState::Occupied(h) => {
                let hw = h as u64;
                assert(hw < 0x1_0000_0000u64 ==> (((hw << 32u64) | 3u64) & 0xffff_ffffu64) == 3u64
                    && (((hw << 32u64) | 3u64) >> 32u64) == hw) by (bit_vector);
                (hw << 32u64) | 3
            },
        }
    }

    pub fn from_word(w: u64) -> (r: HashState)
        ensures
            r == state_of_word(w),
    {
        let tag = w & 0xffff_ffffu64;
        let h = (w >> 32u64) as u32;
        if tag == 1 {
            HashState::Deleted
        } else if tag == 2 {
            HashState::Inserting(h)
        } else if tag == 3 {
            HashState::Occupied(h)
        } else {
            HashState::Empty
        }
    }
}

/// A set of string keys, each addressed by the offset of the slot that
/// holds it. Slots form an open-addressed table probed linearly from the
/// key's hash; a removed key leaves its slot `Deleted`, and a later insert
/// may reuse it. A slot is `Inserting` only while an insert fills it, never
/// between calls.
pub struct HashStore {
    states: Vec<Atomic<u64>>,
    values: Vec<Option<String>>,
    capacity: usize,
    count: usize,
    slots: Ghost<Map<int, Seq<char>>>,
}

impl View for HashStore {
    type V = Map<int, Seq<char>>;

    /// The live keys, by offset.
    closed spec fn view(&self) -> Map<int, Seq<char>> {
        self.slots@
    }
}

/// Whether some offset holds `k`.
pub open spec fn stores(m: Map<int, Seq<char>>, k: Seq<char>) -> bool {
    exists|o: int| m.contains_key(o) && m[o] == k
}

impl HashStore {
    /// Number of slots: one fewer than the capacity asked for.
    pub closed spec fn slot_count(&self) -> nat {
        self.states@.len()
    }

    spec fn n(&self) -> int {
        self.states@.len() as int
    }

    spec fn state(&self, i: int) -> HashState {
        state_of_word(atomic_word(self.states@[i]))
    }

    spec fn is_empty_at(&self, i: int) -> bool {
        self.state(i) is Empty
    }

    spec fn occupied(&self, i: int) -> bool {
        self.state(i) is Occupied
    }

    spec fn key_at(&self, i: int) -> Seq<char> {
        self.values@[i]->Some_0@
    }

    spec fn home(&self, k: Seq<char>) -> int {
        fnv_hash(k) as int % self.n()
    }

    spec fn probe(&self, h: int, t: int) -> int {
        if h + t < self.n() {
            h + t
        } else {
            h + t - self.n()
        }
    }

    spec fn dist(&self, h: int, i: int) -> int {
        if i >= h {
            i - h
        } else {
            i + self.n() - h
        }
    }

    spec fn path_clear(&self, h: int, d: int) -> bool {
        forall|t: int| 0 <= t < d ==> !#[trigger] self.is_empty_at(self.probe(h, t))
    }

    spec fn cell_ok(&self, i: int) -> bool {
        &&& !(self.state(i) is Inserting)
        &&& self.occupied(i) ==> {
            &&& self.values@[i] is Some
            &&& self.state(i)->Occupied_0 == fnv_hash(self.key_at(i))
            &&& self.slots@.contains_key(i)
            &&& self.slots@[i] == self.key_at(i)
            &&& self.path_clear(self.home(self.key_at(i)), self.dist(self.home(self.key_at(i)), i))
        }
        &&& !self.occupied(i) ==> !self.slots@.contains_key(i)
    }

    pub closed spec fn wf(&self) -> bool {
        &&& self.n() >= 1
        &&& self.n() + 1 == self.capacity
        &&& self.values@.len() == self.n()
        &&& forall|i: int| 0 <= i < self.n() ==> #[trigger] self.cell_ok(i)
        &&& forall|o: int| #[trigger] self.slots@.contains_key(o) ==> 0 <= o < self.n()
        &&& self.slots@.dom().finite()
        &&& self.count == self.slots@.len()
    }

    proof fn lemma_probe_dist(&self, h: int, i: int)
        requires
            0 <= h < self.n(),
            0 <= i < self.n(),
        ensures
            0 <= self.dist(h, i) < self.n(),
            self.probe(h, self.dist(h, i)) == i,
    {
    }

    proof fn lemma_dist_probe(&self, h: int, t: int)
        requires
            0 <= h < self.n(),
            0 <= t < self.n(),
        ensures
            0 <= self.probe(h, t) < self.n(),
            self.dist(h, self.probe(h, t)) == t,
    {
    }

    proof fn lemma_absent(&self, k: Seq<char>, t: int)
        requires
            self.wf(),
            0 <= t <= self.n(),
            forall|s: int|
                0 <= s < t ==> !(self.occupied(self.probe(self.home(k), s)) && #[trigger] self.key_at(
                    self.probe(self.home(k), s),
                ) == k),
            t == self.n() || self.is_empty_at(self.probe(self.home(k), t)),
        ensures
            !stores(self.slots@, k),
    {
        let h = self.home(k);
        if stores(self.slots@, k) {
            let i = choose|i: int| self.slots@.contains_key(i) && self.slots@[i] == k;
            assert(self.cell_ok(i));
            self.lemma_probe_dist(h, i);
            let d = self.dist(h, i);
            if d < t {
                assert(self.key_at(self.probe(h, d)) == k);
            } else if d == t {
                assert(self.is_empty_at(i));
            } else {
                assert(!self.is_empty_at(self.probe(h, t)));
            }
        }
    }

    /// Fewer live keys than slots leaves a slot that is not occupied.
    proof fn lemma_not_all_occupied(&self, h: int)
        requires
            self.wf(),
            self.count < self.n(),
            0 <= h < self.n(),
        ensures
            exists|s: int| 0 <= s < self.n() && !#[trigger] self.occupied(self.probe(h, s)),
    {
        if forall|s: int| 0 <= s < self.n() ==> #[trigger] self.occupied(self.probe(h, s)) {
            assert forall|i: int| set_int_range(0, self.n()).contains(i) implies self.slots@.dom().contains(i) by {
                self.lemma_probe_dist(h, i);
                assert(self.occupied(self.probe(h, self.dist(h, i))));
                assert(self.cell_ok(i));
            }
            lemma_int_range(0, self.n());
            lemma_len_subset(set_int_range(0, self.n()), self.slots@.dom());
        }
    }

    fn _next_index(&self, index: usize) -> (r: usize)
        requires
            self.wf(),
            index < self.n(),
        ensures
            r == (if index + 1 == self.n() { 0 } else { index + 1 }),
    {
        let n = self.effective_capacity();
        proof {
            if index + 1 == n {
                lemma_mod_self_0(n as int);
            } else {
                lemma_small_mod((index + 1) as nat, n as nat);
            }
        }
        (index + 1) % n
    }

    /// Number of slots keys can occupy.
    fn effective_capacity(&self) -> (r: usize)
        requires
            self.wf(),
        ensures
            r == self.n(),
    {
        self.capacity - 1
    }

    fn _state(&self, index: usize) -> (r: (u64, HashState))
        requires
            self.wf(),
            index < self.n(),
        ensures
            r.0 == atomic_word(self.states@[index as int]),
            r.1 == self.state(index as int),
    {
        let w = load_word(&self.states[index]);
        (w, HashState::from_word(w))
    }

    /// Whether the occupied slot `index`, whose state carries `slot_hash`,
    /// holds `key`.
    fn _holds(&self, index: usize, slot_hash: u32, key: &String, key_hash: u32) -> (r: bool)
        requires
            self.wf(),
            index < self.n(),
            self.state(index as int) == HashState::Occupied(slot_hash),
            key_hash == fnv_hash(key@),
        ensures
            r == (self.key_at(index as int) == key@),
    {
        assert(self.cell_ok(index as int));
        if slot_hash != key_hash {
            return false;
        }
        match &self.values[index] {
            Some(existing) => *existing == *key,
            None => false,
        }
    }
    /// A store with `capacity - 1` slots, all empty.
    pub fn with_capacity(capacity: usize) -> (r: Self)
        requires
            capacity >= 2,
        ensures
            r.wf(),
            r@ == Map::<int, Seq<char>>::empty(),
            r.slot_count() == capacity - 1,
    {
        let n = capacity - 1;
        let states = create_table(n);
        let mut values: Vec<Option<String>> = Vec::new();
        let mut i: usize = 0;
        while i < n
            invariant
                i <= n,
                values@.len() == i,
            decreases n - i,
        {
            values.push(None);
            i = i + 1;
        }
        let r = HashStore { states, values, capacity, count: 0, slots: Ghost(Map::empty()) };
        proof {
            assert((0u64 & 0xffff_ffffu64) == 0u64) by (bit_vector);
            assert forall|j: int| 0 <= j < r.n() implies #[trigger] r.cell_ok(j) by {
                assert(atomic_word(r.states@[j]) == 0);
            }
        }
        r
    }

    /// The offset of a slot holding `value`, or `None` when no slot does.
    pub fn find(&self, value: &String) -> (r: Option<usize>)
        requires
            self.wf(),
        ensures
            match r {
                Some(o) => self@.contains_key(o as int) && self@[o as int] == value@,
                None => !stores(self@, value@),
            },
    {
        let n = self.effective_capacity();
        let key_hash = hash(value.as_str());
        let home = (key_hash as usize) % n;
        let mut index = home;
        let mut t: usize = 0;
        while t < n
            invariant
                self.wf(),
                n == self.n(),
                home == self.home(value@),
                key_hash == fnv_hash(value@),
                t <= n,
                t < n ==> index == self.probe(home as int, t as int),
                forall|s: int|
                    0 <= s < t ==> !(self.occupied(self.probe(home as int, s)) && #[trigger] self.key_at(
                        self.probe(home as int, s),
                    ) == value@),
            decreases n - t,
        {
            let (_, state) = self._state(index);
            proof {
                assert(self.cell_ok(index as int));
            }
            match state {
                HashState::Occupied(slot_hash) => {
                    if self._holds(index, slot_hash, value, key_hash) {
                        return Some(index);
                    }
                },
                HashState::Empty => {
                    proof {
                        self.lemma_absent(value@, t as int);
                    }
                    return None;
                },
                _ => {},
            }
            index = self._next_index(index);
            t = t + 1;
        }
        proof {
            self.lemma_absent(value@, t as int);
        }
        None
    }

    /// The key at offset `index`, if one is stored there.
    pub fn get(&self, index: usize) -> (r: Option<String>)
        requires
            self.wf(),
        ensures
            match r {
                Some(k) => self@.contains_key(index as int) && k@ == self@[index as int],
                None => !self@.contains_key(index as int),
            },
    {
        if index >= self.effective_capacity() {
            return None;
        }
        let (_, state) = self._state(index);
        proof {
            assert(self.cell_ok(index as int));
        }
        match state {
            HashState::Occupied(_) => match &self.values[index] {
                Some(k) => Some(k.clone()),
                None => None,
            },
            _ => None,
        }
    }

    /// Whether offsets `index1` and `index2` both hold a key, and the same key.
    pub fn values_eq(&self, index1: usize, index2: usize) -> (r: bool)
        requires
            self.wf(),
        ensures
            r == (self@.contains_key(index1 as int) && self@.contains_key(index2 as int)
                && self@[index1 as int] == self@[index2 as int]),
    {
        let n = self.effective_capacity();
        if index1 >= n || index2 >= n {
            return false;
        }
        let (_, state1) = self._state(index1);
        let (_, state2) = self._state(index2);
        proof {
            assert(self.cell_ok(index1 as int));
            assert(self.cell_ok(index2 as int));
        }
        match (state1, state2) {
            (HashState::Occupied(hash1), HashState::Occupied(hash2)) => {
                if hash1 != hash2 {
                    return false;
                }
                match (&self.values[index1], &self.values[index2]) {
                    (Some(value1), Some(value2)) => *value1 == *value2,
                    _ => false,
                }
            },
            _ => false,
        }
    }

    /// Removes the key at offset `index`, leaving its slot `Deleted`.
    /// Returns whether a key was there; nothing changes when none was.
    pub fn remove(&mut self, index: usize) -> (r: bool)
        requires
            old(self).wf(),
        ensures
            final(self).wf(),
            final(self).slot_count() == old(self).slot_count(),
            r == old(self)@.contains_key(index as int),
            final(self)@ == old(self)@.remove(index as int),
    {
        if index >= self.effective_capacity() {
            proof {
                assert(self.slots@.remove(index as int) =~= self.slots@);
            }
            return false;
        }
        let (word, state) = self._state(index);
        proof {
            assert(self.cell_ok(index as int));
        }
        match state {
            HashState::Occupied(_) => {},
            _ => {
                proof {
                    assert(self.slots@.remove(index as int) =~= self.slots@);
                }
                return false;
            },
        }
        let ghost states0 = self.states@;
        let res = compare_exchange_word(&mut self.states[index], word, HashState::Deleted.to_word());
        if res.is_err() {
            return false;
        }
        self.count = self.count - 1;
        self.slots = Ghost(self.slots@.remove(index as int));
        proof {
            let o = old(self);
            assert(self.states@ == states0.update(index as int, self.states@[index as int]));
            assert(self.state(index as int) == HashState::Deleted);
            assert forall|i: int| 0 <= i < self.n() implies #[trigger] self.cell_ok(i) by {
                assert(o.cell_ok(i));
                if i != index && self.occupied(i) {
                    let h = o.home(o.key_at(i));
                    let d = o.dist(h, i);
                    assert forall|t: int| 0 <= t < d implies !#[trigger] self.is_empty_at(self.probe(h, t)) by {
                        assert(!o.is_empty_at(o.probe(h, t)));
                    }
                }
            }
        }
        true
    }

    /// Stores `value` in the first slot on its probe path that is empty or
    /// deleted, and returns that slot's offset. Refused (`None`) when every
    /// slot is taken, when a slot met on the path before a free one already
    /// holds `value`, and, if `CHECK_UNIQUE`, whenever `value` is stored.
    pub fn insert<const CHECK_UNIQUE: bool>(&mut self, value: String) -> (r: Option<usize>)
        requires
            old(self).wf(),
        ensures
            final(self).wf(),
            final(self).slot_count() == old(self).slot_count(),
            match r {
                Some(o) => !old(self)@.contains_key(o as int) && final(self)@ == old(self)@.insert(
                    o as int,
                    value@,
                ) && (CHECK_UNIQUE ==> !stores(old(self)@, value@)),
                None => final(self)@ == old(self)@ && (old(self)@.len() >= old(self).slot_count()
                    || stores(old(self)@, value@)),
            },
            old(self)@.len() < old(self).slot_count() && !stores(old(self)@, value@) ==> r is Some,
    {
        if CHECK_UNIQUE && self.find(&value).is_some() {
            return None;
        }
        let n = self.effective_capacity();
        if self.count >= n {
            return None;
        }
        let key_hash = hash(value.as_str());
        let home = (key_hash as usize) % n;
        let mut index = home;
        let mut t: usize = 0;
        while t < n
            invariant
                self == old(self),
                self.wf(),
                self.count < n,
                n == self.n(),
                home == self.home(value@),
                key_hash == fnv_hash(value@),
                t <= n,
                t < n ==> index == self.probe(home as int, t as int),
                forall|s: int| 0 <= s < t ==> #[trigger] self.occupied(self.probe(home as int, s)),
                forall|s: int|
                    0 <= s < t ==> !(self.occupied(self.probe(home as int, s)) && #[trigger] self.key_at(
                        self.probe(home as int, s),
                    ) == value@),
                CHECK_UNIQUE ==> !stores(self@, value@),
            decreases n - t,
        {
            let (word, state) = self._state(index);
            proof {
                assert(self.cell_ok(index as int));
            }
            match state {
                HashState::Occupied(slot_hash) => {
                    if self._holds(index, slot_hash, &value, key_hash) {
                        return None;
                    }
                },
                _ => {
                    proof {
                        self.lemma_dist_probe(home as int, t as int);
                        assert forall|s: int| 0 <= s < t implies !#[trigger] self.is_empty_at(
                            self.probe(home as int, s),
                        ) by {
                            assert(self.occupied(self.probe(home as int, s)));
                        }
                    }
                    self._claim(index, word, value, key_hash);
                    return Some(index);
                },
            }
            index = self._next_index(index);
            t = t + 1;
        }
        proof {
            self.lemma_not_all_occupied(home as int);
        }
        None
    }

    /// Takes the free slot `index`, whose word is `word`, for `value`: the
    /// slot goes `Inserting`, receives the key, then goes `Occupied`.
    fn _claim(&mut self, index: usize, word: u64, value: String, key_hash: u32)
        requires
            old(self).wf(),
            old(self).count < old(self).n(),
            index < old(self).n(),
            !old(self).occupied(index as int),
            word == atomic_word(old(self).states@[index as int]),
            key_hash == fnv_hash(value@),
            old(self).path_clear(old(self).home(value@), old(self).dist(old(self).home(value@), index as int)),
        ensures
            final(self).wf(),
            final(self).slot_count() == old(self).slot_count(),
            final(self)@ == old(self)@.insert(index as int, value@),
    {
        let ghost states0 = self.states@;
        let ghost values0 = self.values@;
        let ghost k = value@;
        proof {
            assert(old(self).cell_ok(index as int));
        }
        let _ = compare_exchange_word(&mut self.states[index], word, HashState::Inserting(key_hash).to_word());
        self.values[index] = Some(value);
        store_word(&mut self.states[index], HashState::Occupied(key_hash).to_word());
        self.count = self.count + 1;
        self.slots = Ghost(self.slots@.insert(index as int, k));
        proof {
            let o = old(self);
            assert(self.states@ == states0.update(index as int, self.states@[index as int]));
            assert(self.values@ == values0.update(index as int, Some(value)));
            assert(self.state(index as int) == HashState::Occupied(key_hash));
            assert(self.key_at(index as int) == k);
            assert forall|i: int| 0 <= i < self.n() implies #[trigger] self.cell_ok(i) by {
                assert(o.cell_ok(i));
                if self.occupied(i) {
                    let h = self.home(self.key_at(i));
                    let d = self.dist(h, i);
                    if i != index {
                        assert(o.key_at(i) == self.key_at(i));
                    }
                    assert forall|t: int| 0 <= t < d implies !#[trigger] self.is_empty_at(self.probe(h, t)) by {
                        assert(!o.is_empty_at(o.probe(h, t)));
                    }
                }
            }
        }
    }
}

} // verus!
