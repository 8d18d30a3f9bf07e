//! Trusted boundary to the sled key-value store.
//!
//! The store is modeled as a map from key bytes to value bytes,
//! `store_contents`. Each wrapper states, over that map, what the sled
//! call it makes does, as sled's own documentation gives it; nothing else
//! about sled is assumed. Durability (`flush`) is not modeled beyond the
//! contents being unchanged.

use vstd::prelude::*;

verus! {

#[verifier::external_type_specification]
#[verifier::external_body]
pub struct ExDb(sled::Db);

#[verifier::external_type_specification]
#[verifier::external_body]
pub struct ExSledError(sled::Error);

/// What the store holds: the map from each key to the value stored
/// under it.
pub uninterp spec fn store_contents(db: sled::Db) -> Map<Seq<u8>, Seq<u8>>;

/// A scan result consistent with the store's contents: every entry is a
/// stored pair, no key repeats, and every stored key is covered.
pub open spec fn scan_consistent(m: Map<Seq<u8>, Seq<u8>>, recs: Seq<(Vec<u8>, Vec<u8>)>) -> bool {
    &&& m.dom().finite()
    &&& recs.len() == m.dom().len()
    &&& forall|i: int| 0 <= i < recs.len() ==> m.contains_pair(#[trigger] recs[i].0@, recs[i].1@)
    &&& forall|i: int, j: int|
        #![trigger recs[i], recs[j]]
        0 <= i < j < recs.len() ==> recs[i].0@ != recs[j].0@
}

/// Relies on `sled::Tree::insert` (reached through `Db`'s deref to the
/// default keyspace): sets `key` to `value`; on success the stored map
/// gains exactly that pair. On an error nothing is assumed of the store.
#[verifier::external_body]
pub(crate) fn store_put(db: &mut sled::Db, key: &Vec<u8>, value: &Vec<u8>) -> (r: Result<
    (),
    sled::Error,
>)
    ensures
        r is Ok ==> store_contents(*final(db)) == store_contents(*old(db)).insert(key@, value@),
{
    db.insert(key.as_slice(), value.as_slice()).map(|_| ())
}

/// Relies on `sled::Tree::get`: returns the value stored under `key`,
/// `None` when the key is absent.
#[verifier::external_body]
pub(crate) fn store_get(db: &sled::Db, key: &Vec<u8>) -> (r: Result<Option<Vec<u8>>, sled::Error>)
    ensures
        match r {
            Ok(Some(v)) => store_contents(*db).contains_key(key@) && v@ == store_contents(*db)[key@],
            Ok(None) => !store_contents(*db).contains_key(key@),
            Err(_) => true,
        },
{
    match db.get(key.as_slice()) {
        Ok(Some(v)) => Ok(Some(v.to_vec())),
        Ok(None) => Ok(None),
        Err(e) => Err(e),
    }
}

/// Relies on `sled::Tree::iter`: yields every key-value pair of the
/// store, each key exactly once.
#[verifier::external_body]
pub(crate) fn store_scan(db: &sled::Db) -> (r: Result<Vec<(Vec<u8>, Vec<u8>)>, sled::Error>)
    ensures
        match r {
            Ok(recs) => scan_consistent(store_contents(*db), recs@),
            Err(_) => true,
        },
{
    let mut out = Vec::new();
    for item in db.iter() {
        let (k, v) = item?;
        out.push((k.to_vec(), v.to_vec()));
    }
    Ok(out)
}

/// Relies on `sled::Tree::flush`: blocks until prior writes are durable.
/// The stored map is unchanged by flushing.
#[verifier::external_body]
pub(crate) fn store_flush(db: &mut sled::Db) -> (r: Result<(), sled::Error>)
    ensures
        store_contents(*final(db)) == store_contents(*old(db)),
{
    db.flush().map(|_| ())
}

} // verus!
