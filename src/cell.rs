use vstd::prelude::*;
use atomic::{Atomic, Ordering};

verus! {

#[verifier::external_type_specification]
#[verifier::external_body]
#[verifier::reject_recursive_types(T)]
pub struct ExAtomic<T>(Atomic<T>);

/// The word an `atomic::Atomic<u64>` currently holds.
pub uninterp spec fn atomic_word(a: Atomic<u64>) -> u64;

/// Relies on `atomic::Atomic::new`: the new atomic holds `v`.
#[verifier::external_body]
pub(crate) fn new_word(v: u64) -> (r: Atomic<u64>)
    ensures
        atomic_word(r) == v,
{
    Atomic::new(v)
}

/// Relies on `atomic::Atomic::load`: reads the word the atomic holds.
#[verifier::external_body]
pub(crate) fn load_word(a: &Atomic<u64>) -> (r: u64)
    ensures
        r == atomic_word(*a),
{
    a.load(Ordering::Acquire)
}

/// Relies on `atomic::Atomic::compare_exchange`: with exclusive access the
/// word is replaced by `new` exactly when it equals `current`, and the
/// previous word is returned as `Ok` on success and `Err` otherwise.
#[verifier::external_body]
pub(crate) fn compare_exchange_word(a: &mut Atomic<u64>, current: u64, new: u64) -> (r: Result<u64, u64>)
    ensures
        atomic_word(*old(a)) == current ==> r is Ok && r->Ok_0 == current && atomic_word(*final(a)) == new,
        atomic_word(*old(a)) != current ==> r is Err && r->Err_0 == atomic_word(*old(a)) && atomic_word(*final(a)) == atomic_word(*old(a)),
{
    a.compare_exchange(current, new, Ordering::Release, Ordering::Acquire)
}

/// Relies on `atomic::Atomic::store`: the atomic then holds `v`.
#[verifier::external_body]
pub(crate) fn store_word(a: &mut Atomic<u64>, v: u64)
    ensures
        atomic_word(*final(a)) == v,
{
    a.store(v, Ordering::Release)
}

/// A table of `count` atomic words, each holding zero.
pub(crate) fn create_table(count: usize) -> (r: Vec<Atomic<u64>>)
    ensures
        r@.len() == count,
        forall|j: int| 0 <= j < count ==> atomic_word(#[trigger] r@[j]) == 0,
{
    let mut table: Vec<Atomic<u64>> = Vec::new();
    let mut i: usize = 0;
    while i < count
        invariant
            i <= count,
            table@.len() == i,
            forall|j: int| 0 <= j < i ==> atomic_word(#[trigger] table@[j]) == 0,
        decreases count - i,
    {
        table.push(new_word(0));
        i = i + 1;
    }
    table
}

/// Descriptor of a cell that was never written.
pub const EMPTY_KEY: u16 = 0;
/// Descriptor of a cell whose entry was removed.
pub const DELETED_KEY: u16 = 1;
/// Smallest descriptor of an occupied cell; it encodes key-store offset 0.
pub const MIN_KEY: u16 = 2;

/// The fields of a cell: the cached hash of its key, its descriptor and
/// its value. A cell is stored packed into one 64-bit atomic word.
#[derive(Clone, Copy, PartialEq, Eq, Structural)]
pub struct Entry {
    pub key_hash: u32,
    pub key_offset: u16,
    pub value: u16,
}

pub open spec fn pack_spec(e: Entry) -> u64 {
    ((e.key_hash as u64) << 32u64) | ((e.key_offset as u64) << 16u64) | (e.value as u64)
}

pub open spec fn unpack_spec(w: u64) -> Entry {
    Entry {
        key_hash: (w >> 32u64) as u32,
        key_offset: ((w >> 16u64) & 0xffffu64) as u16,
        value: (w & 0xffffu64) as u16,
    }
}

/// Unpacking a packed entry gives the entry back.
pub proof fn lemma_unpack_pack(e: Entry)
    ensures
        unpack_spec(pack_spec(e)) == e,
{
    let h = e.key_hash as u64;
    let o = e.key_offset as u64;
    let v = e.value as u64;
    assert(h < 0x1_0000_0000u64 && o < 0x10000u64 && v < 0x10000u64 ==> {
        &&& ((((h << 32u64) | (o << 16u64) | v) >> 32u64) == h)
        &&& (((((h << 32u64) | (o << 16u64) | v) >> 16u64) & 0xffffu64) == o)
        &&& ((((h << 32u64) | (o << 16u64) | v) & 0xffffu64) == v)
    }) by (bit_vector);
}

/// Packing the fields of an unpacked word gives the word back.
pub proof fn lemma_pack_unpack(w: u64)
    ensures
        pack_spec(unpack_spec(w)) == w,
{
    assert(((((w >> 32u64) as u32) as u64) << 32u64) | (((((w >> 16u64) & 0xffffu64) as u16) as u64) << 16u64)
        | (((w & 0xffffu64) as u16) as u64) == w) by (bit_vector);
}

/// The all-zero word unpacks to an empty cell.
pub proof fn lemma_zero_is_empty()
    ensures
        unpack_spec(0u64).key_offset == EMPTY_KEY,
{
    assert(((0u64 >> 16u64) & 0xffffu64) == 0u64) by (bit_vector);
}

impl Entry {
    pub fn pack(self) -> (r: u64)
        ensures
            r == pack_spec(self),
            unpack_spec(r) == self,
    {
        proof {
            lemma_unpack_pack(self);
        }
        ((self.key_hash as u64) << 32u64) | ((self.key_offset as u64) << 16u64) | (self.value as u64)
    }

    pub fn unpack(w: u64) -> (r: Entry)
        ensures
            r == unpack_spec(w),
            pack_spec(r) == w,
    {
        proof {
            lemma_pack_unpack(w);
        }
        Entry {
            key_hash: (w >> 32u64) as u32,
            key_offset: ((w >> 16u64) & 0xffffu64) as u16,
            value: (w & 0xffffu64) as u16,
        }
    }
}

} // verus!
