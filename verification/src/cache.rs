//! The stored form of a line index.
//!
//! The line starts and the index are written and read by [`bincode`], the
//! index as a plain hash table of bitmaps.

use dashmap::DashMap;
use fxhash::FxBuildHasher;
use roaring::RoaringBitmap;
use std::collections::HashMap;
use vstd::prelude::*;

use crate::linemap::{all_in_form, line_forms, line_sets, CompressedTrigramIndex};

verus! {

/// Why bytes are not the stored form of a value.
#[verifier::external_type_specification]
#[verifier::external_body]
pub struct ExBincodeError(bincode::ErrorKind);

/// The entries of an index as they are stored.
pub type CacheTable = HashMap<[u8; 3], RoaringBitmap, FxBuildHasher>;

/// The lines under each window of a table.
pub uninterp spec fn table_sets(table: CacheTable) -> Map<Seq<u8>, Set<u32>>;

/// How the bitmap under each window of a table is stored: its serialized form,
/// and whether its containers are organised as that form has them.
pub uninterp spec fn table_forms(table: CacheTable) -> Map<Seq<u8>, (Seq<u8>, bool)>;

/// The line starts and the lines under each window that are stored in `data`,
/// or `None` if `data` does not start with a stored form.
pub uninterp spec fn cache_parsed(data: Seq<u8>) -> Option<(Seq<u64>, Map<Seq<u8>, Set<u32>>)>;

/// `DashMap::into_iter`, collected into a hash table: the same entries.
#[verifier::external_body]
fn table_of(index: CompressedTrigramIndex) -> (table: CacheTable)
    ensures
        table_sets(table) == line_sets(index),
        table_forms(table) == line_forms(index),
{
    index.into_iter().collect()
}

/// `DashMap::from_iter` on the entries of a hash table: the same entries.
#[verifier::external_body]
fn index_of(table: CacheTable) -> (index: CompressedTrigramIndex)
    ensures
        line_sets(index) == table_sets(table),
        line_forms(index) == table_forms(table),
{
    DashMap::from_iter(table)
}

/// `bincode::serialize`: no size is too large for it and a byte vector takes
/// every write, so it succeeds. If every bitmap is organised as its stored form
/// has it, what is written is read back as the same line starts and the same
/// lines. In which order the entries come is not stated.
#[verifier::external_body]
fn serialize_cache(line_offsets: &Vec<u64>, table: &CacheTable) -> (out: Result<Vec<u8>, bincode::Error>)
    ensures
        out is Ok,
        out matches Ok(data) ==> all_in_form(table_forms(*table)) ==> cache_parsed(data@) == Some(
            (line_offsets@, table_sets(*table)),
        ),
{
    bincode::serialize(&(line_offsets, table))
}

/// `bincode::deserialize`: the line starts and the table that `data` starts
/// with, or an error if it does not start with the stored form of the two.
/// Which of the two, and what the table holds, depends on `data` alone. Every
/// bitmap is organised as it was read.
#[verifier::external_body]
fn deserialize_cache(data: &[u8]) -> (out: Result<(Vec<u64>, CacheTable), bincode::Error>)
    ensures
        out is Ok <==> cache_parsed(data@) is Some,
        out matches Ok((line_offsets, table)) ==> cache_parsed(data@) == Some((line_offsets@, table_sets(table))),
        out matches Ok((line_offsets, table)) ==> all_in_form(table_forms(table)),
{
    bincode::deserialize(data)
}

/// Bytes that are not the stored form of a line index.
#[derive(Debug, PartialEq, Eq)]
pub struct CorruptCache;

/// The stored form of the line starts and the index. An index that was built or
/// loaded here is read back as the same one, with the same line starts.
pub fn save_index_to_cache(line_offsets: &Vec<u64>, index: CompressedTrigramIndex) -> (data: Vec<u8>)
    ensures
        all_in_form(line_forms(index)) ==> cache_parsed(data@) == Some((line_offsets@, line_sets(index))),
{
    let table = table_of(index);
    match serialize_cache(line_offsets, &table) {
        Ok(data) => data,
        Err(_) => Vec::new(),
    }
}

/// The line starts and the index that `data` stores.
pub fn load_index_from_cache(data: &[u8]) -> (out: Result<(Vec<u64>, CompressedTrigramIndex), CorruptCache>)
    ensures
        out is Ok <==> cache_parsed(data@) is Some,
        out matches Ok((line_offsets, index)) ==> cache_parsed(data@) == Some((line_offsets@, line_sets(index))),
        out matches Ok((line_offsets, index)) ==> all_in_form(line_forms(index)),
{
    match deserialize_cache(data) {
        Ok((line_offsets, table)) => Ok((line_offsets, index_of(table))),
        Err(_) => Err(CorruptCache),
    }
}

} // verus!
