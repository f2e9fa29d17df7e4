use vstd::prelude::*;

verus! {

/// Number of cells in a bucket of the key store's table.
pub const STORE_BUCKET_CAPACITY: usize = 4;

/// Bucket holding the cell at `index` in a table of `size_mask + 1` cells
/// grouped four at a time.
pub fn get_bucket_index(index: usize, size_mask: usize) -> (r: usize)
    ensures
        r == (index & size_mask) >> 2usize,
        r as int == (index & size_mask) as int / 4,
{
    let masked = index & size_mask;
    assert(masked >> 2usize == masked / 4) by (bit_vector);
    masked >> 2
}

/// Position of the cell at `index` inside its bucket of four.
pub fn get_cell_index(index: usize) -> (r: u8)
    ensures
        r as usize == index & 3usize,
        r as int == index as int % 4,
        r < 4,
{
    let c = index & 3;
    assert(index & 3usize == index % 4) by (bit_vector);
    c as u8
}

/// The 32-bit FNV-1a digest that `hash32::FnvHasher` gives for a key.
pub uninterp spec fn fnv_hash(key: Seq<char>) -> u32;

/// Relies on `hash32::FnvHasher` fed through `core::hash::Hash for str`:
/// the digest is a function of the key's characters alone.
#[verifier::external_body]
pub(crate) fn hash(key: &str) -> (r: u32)
    ensures
        r == fnv_hash(key@),
{
    let mut hasher = hash32::FnvHasher::default();
    core::hash::Hash::hash(key, &mut hasher);
    hash32::Hasher::finish32(&hasher)
}

} // verus!
