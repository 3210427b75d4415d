//! The transposition cache: what positions were found to be worth, by position and by
//! the depth that was left to look ahead.
//!
//! Two positions are the same if every cell holds the same exponent. The entries stand
//! in a hash table of buckets; a bucket holds the entries whose keys have the same
//! hash, and a later entry for a key hides an earlier one.

use crate::algorithm::same_cells;
use crate::strategies::model::Estimate;
use std::collections::HashMap;
use vstd::prelude::*;

verus! {

/// One remembered position.
pub struct CacheEntry {
    cells: Vec<i32>,
    depth: usize,
    value: Estimate,
}

/// One step of the hash: `x` mixed into `h`.
pub open spec fn mixed(h: u64, x: u64) -> u64 {
    (h ^ x).wrapping_mul(0x100_0000_01b3)
}

/// A cell as the hash takes it in: moved up into the range of `u32`.
pub open spec fn lifted(cell: i32) -> u64 {
    (cell as int + 0x8000_0000) as u64
}

/// The hash of the cells of a position.
pub open spec fn cells_hash(cells: Seq<i32>) -> u64
    decreases cells.len(),
{
    if cells.len() == 0 {
        0xcbf2_9ce4_8422_2325
    } else {
        mixed(cells_hash(cells.drop_last()), lifted(cells.last()))
    }
}

/// The hash of a key: of the cells of a position and of a depth.
pub open spec fn key_hash(cells: Seq<i32>, depth: usize) -> u64 {
    mixed(cells_hash(cells), depth as u64)
}

/// The value of the last entry of the bucket that was made for the key, if there is one.
pub closed spec fn bucket_find(bucket: Seq<CacheEntry>, cells: Seq<i32>, depth: usize) -> Option<
    Estimate,
>
    decreases bucket.len(),
{
    if bucket.len() == 0 {
        None
    } else if bucket.last().cells@ == cells && bucket.last().depth == depth {
        Some(bucket.last().value)
    } else {
        bucket_find(bucket.drop_last(), cells, depth)
    }
}

/// The hash of a key.
pub fn hash_key(cells: &[i32], depth: usize) -> (h: u64)
    ensures
        h == key_hash(cells@, depth),
{
    let mut h: u64 = 0xcbf2_9ce4_8422_2325;
    let mut i: usize = 0;
    while i < cells.len()
        invariant
            i <= cells.len(),
            h == cells_hash(cells@.take(i as int)),
        decreases cells.len() - i,
    {
        proof {
            assert(cells@.take(i + 1).drop_last() == cells@.take(i as int));
        }
        let x = (cells[i] as i64 + 0x8000_0000) as u64;
        h = (h ^ x).wrapping_mul(0x100_0000_01b3);
        i = i + 1;
    }
    proof {
        assert(cells@.take(cells.len() as int) == cells@);
    }
    (h ^ depth as u64).wrapping_mul(0x100_0000_01b3)
}

/// What positions were found to be worth.
pub struct TranspositionCache {
    table: HashMap<u64, Vec<CacheEntry>>,
}

impl TranspositionCache {
    /// What the cache holds for a key, if anything.
    pub closed spec fn found(&self, cells: Seq<i32>, depth: usize) -> Option<Estimate> {
        let h = key_hash(cells, depth);
        if self.table@.contains_key(h) {
            bucket_find(self.table@[h]@, cells, depth)
        } else {
            None
        }
    }
}

impl View for TranspositionCache {
    type V = Map<(Seq<i32>, usize), Estimate>;

    /// The cache as a map from position and depth to worth.
    closed spec fn view(&self) -> Map<(Seq<i32>, usize), Estimate> {
        Map::new(
            |key: (Seq<i32>, usize)| self.found(key.0, key.1) is Some,
            |key: (Seq<i32>, usize)| self.found(key.0, key.1).unwrap(),
        )
    }
}

impl TranspositionCache {
    /// An empty cache.
    pub fn new() -> (cache: Self)
        ensures
            cache@ == Map::<(Seq<i32>, usize), Estimate>::empty(),
    {
        let cache = TranspositionCache { table: HashMap::new() };
        assert(cache@ =~= Map::<(Seq<i32>, usize), Estimate>::empty());
        cache
    }

    /// What the cache holds for the position `cells` at `depth`, if anything.
    pub fn get(&self, cells: &[i32], depth: usize) -> (hit: Option<Estimate>)
        ensures
            hit is Some <==> self@.contains_key((cells@, depth)),
            hit matches Some(value) ==> value == self@[(cells@, depth)],
    {
        broadcast use vstd::std_specs::hash::group_hash_axioms;

        let h = hash_key(cells, depth);
        match self.table.get(&h) {
            None => None,
            Some(bucket) => {
                let mut i: usize = bucket.len();
                proof {
                    assert(bucket@.take(i as int) == bucket@);
                }
                while i > 0
                    invariant
                        i <= bucket.len(),
                        h == key_hash(cells@, depth),
                        self.table@.contains_key(h),
                        self.table@[h]@ == bucket@,
                        bucket_find(bucket@, cells@, depth) == bucket_find(
                            bucket@.take(i as int),
                            cells@,
                            depth,
                        ),
                    decreases i,
                {
                    let entry = &bucket[i - 1];
                    proof {
                        assert(bucket@.take(i as int).drop_last() == bucket@.take(i - 1));
                    }
                    if entry.depth == depth && same_cells(entry.cells.as_slice(), cells) {
                        return Some(entry.value);
                    }
                    i = i - 1;
                }
                None
            },
        }
    }

    /// Remembers that the position `cells` is worth `value` at `depth`.
    pub fn insert(&mut self, cells: Vec<i32>, depth: usize, value: Estimate)
        ensures
            final(self)@ == old(self)@.insert((cells@, depth), value),
    {
        broadcast use vstd::std_specs::hash::group_hash_axioms;

        let h = hash_key(cells.as_slice(), depth);
        let ghost key = (cells@, depth);
        let mut bucket = match self.table.remove(&h) {
            Some(bucket) => bucket,
            None => Vec::new(),
        };
        let ghost before = bucket@;
        assert(old(self).found(key.0, key.1) == bucket_find(before, key.0, key.1));
        bucket.push(CacheEntry { cells, depth, value });
        assert(bucket@.drop_last() == before);
        self.table.insert(h, bucket);
        proof {
            let updated = old(self)@.insert(key, value);
            assert forall|k: (Seq<i32>, usize)| #[trigger]
                self@.contains_key(k) == updated.contains_key(k) && (self@.contains_key(k)
                    ==> self@[k] == updated[k]) by {
                if key_hash(k.0, k.1) == h {
                    assert(self.found(k.0, k.1) == bucket_find(bucket@, k.0, k.1));
                    if k != key {
                        assert(self.found(k.0, k.1) == bucket_find(before, k.0, k.1));
                        assert(old(self).found(k.0, k.1) == bucket_find(before, k.0, k.1));
                    }
                } else {
                    assert(self.found(k.0, k.1) == old(self).found(k.0, k.1));
                }
            }
            assert(self@ =~= updated);
        }
    }
}

} // verus!
