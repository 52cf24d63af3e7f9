//! Row hashing and hash-to-partition routing.
//!
//! One combined hash is computed per row from all of its join-key cells,
//! starting from a seed shared by every sink of one split lineage, so that
//! hashes computed by different sinks are directly comparable.  Partition
//! selection is a pure function of the hash and the fixed partition count.

use vstd::prelude::*;

verus! {

/// Folds one more key cell into a row hash: rotate, then mix the cell in.
pub open spec fn mix_cell(h: u64, v: u64) -> u64 {
    (((h << 7) | (h >> 57)) ^ v) as u64
}

/// The combined hash of a whole key tuple, folded left to right from the
/// seed.
pub open spec fn hash_tuple(seed: u64, t: Seq<u64>) -> u64
    decreases t.len(),
{
    if t.len() == 0 {
        seed
    } else {
        mix_cell(hash_tuple(seed, t.drop_last()), t.last())
    }
}

/// Computes the combined hash of one row's key tuple.
pub fn hash_row(seed: u64, row: &Vec<u64>) -> (h: u64)
    ensures
        h == hash_tuple(seed, row@),
{
    let mut h: u64 = seed;
    let mut i: usize = 0;
    while i < row.len()
        invariant
            i <= row@.len(),
            h == hash_tuple(seed, row@.take(i as int)),
        decreases row@.len() - i,
    {
        let v = row[i];
        h = ((h << 7) | (h >> 57)) ^ v;
        proof {
            let pre = row@.take(i + 1);
            assert(pre.drop_last() =~= row@.take(i as int));
            assert(pre.last() == row@[i as int]);
        }
        i += 1;
    }
    assert(row@.take(row@.len() as int) =~= row@);
    h
}

/// Routes a hash to its partition: the canonical `hash mod partition_count`.
pub fn hash_to_partition(h: u64, n_partitions: usize) -> (p: usize)
    requires
        n_partitions >= 1,
    ensures
        p == h as int % n_partitions as int,
        p < n_partitions,
{
    (h % (n_partitions as u64)) as usize
}

} // verus!
