//! Figures about an index.

use vstd::prelude::*;

use crate::bitmap::{ascending_members, bitmap_ids, count_ids};
use crate::fx;
use crate::index::{count_live, live_files, Index};
use crate::query::Postings;
use crate::store::posting_keys;
use crate::trigram::Trigram;

verus! {

/// How many files the postings of these trigrams list in total.
pub open spec fn entries_under(postings: Map<Trigram, roaring::RoaringBitmap>, keys: Seq<Trigram>) -> nat
    decreases keys.len(),
{
    if keys.len() == 0 {
        0
    } else {
        entries_under(postings, keys.drop_last()) + bitmap_ids(postings[keys.last()]).len()
    }
}

/// Figures about an index.
#[derive(Debug, PartialEq, Eq)]
pub struct IndexStats {
    pub files: usize,
    pub trigrams: usize,
    pub postings: u128,
}

/// How many entries the postings have in total.
fn count_entries(postings: &Postings, keys: &Vec<u32>) -> (total: u128)
    requires
        keys@.to_set() == postings@.dom(),
    ensures
        total == entries_under(postings@, keys@),
{
    let mut total: u128 = 0;
    let mut i: usize = 0;
    while i < keys.len()
        invariant
            i <= keys@.len(),
            keys@.to_set() == postings@.dom(),
            total == entries_under(postings@, keys@.take(i as int)),
            total <= i * u64::MAX,
        decreases keys@.len() - i,
    {
        proof {
            assert(keys@.take(i + 1).drop_last() =~= keys@.take(i as int));
            assert(keys@.take(i + 1).last() == keys@[i as int]);
            assert(keys@.to_set().contains(keys@[i as int]));
            assert(total + u64::MAX <= u128::MAX) by (nonlinear_arith)
                requires
                    total <= i * u64::MAX,
                    i < u64::MAX,
            ;
            assert((i + 1) * u64::MAX == i * u64::MAX + u64::MAX) by (nonlinear_arith);
        }
        match fx::map_get(postings, &keys[i]) {
            Some(bitmap) => {
                total += count_ids(bitmap) as u128;
            },
            None => {},
        }
        i += 1;
    }
    assert(keys@.take(i as int) =~= keys@);
    total
}

/// The figures about an index: its live files, its trigrams, and the entries
/// of their postings.
pub fn index_stats(index: &Index) -> (stats: IndexStats)
    requires
        bitmap_ids(index.removed_ids).len() <= index.files@.len(),
    ensures
        stats.files == live_files(*index),
        stats.trigrams == index.postings@.dom().len(),
        stats.postings == entries_under(index.postings@, ascending_members(index.postings@.dom())),
{
    let keys = posting_keys(&index.postings);
    IndexStats {
        files: count_live(index),
        trigrams: keys.len(),
        postings: count_entries(&index.postings, &keys),
    }
}

/// The entries of trigrams are those of the first and those of the others; under
/// one trigram there are as many as it lists files.
pub proof fn entries_add_up(postings: Map<Trigram, roaring::RoaringBitmap>, a: Seq<Trigram>, b: Seq<Trigram>, t: Trigram)
    ensures
        entries_under(postings, a + b) == entries_under(postings, a) + entries_under(postings, b),
        entries_under(postings, seq![t]) == bitmap_ids(postings[t]).len(),
    decreases b.len(),
{
    reveal_with_fuel(entries_under, 2);
    assert(seq![t].drop_last() =~= Seq::<Trigram>::empty());
    assert(seq![t].last() == t);
    if b.len() == 0 {
        assert(a + b =~= a);
    } else {
        entries_add_up(postings, a, b.drop_last(), t);
        assert((a + b).drop_last() =~= a + b.drop_last());
        assert((a + b).last() == b.last());
    }
}

} // verus!
