//! The key-value store behind the chain, the UTXO index and the wallets:
//! sled, treated as an opaque string-to-bytes map with atomic put and flush.
//!
//! Keys are written as the UTF-8 bytes of the strings this library uses, so
//! the store is modeled as a map from character strings to byte strings.

use vstd::prelude::*;

verus! {

#[verifier::external_type_specification]
#[verifier::external_body]
pub struct ExSledDb(sled::Db);

#[verifier::external_type_specification]
#[verifier::external_body]
pub struct ExSledError(sled::Error);

/// What the database holds, keyed by the strings this library writes.
pub uninterp spec fn store_map(db: sled::Db) -> Map<Seq<char>, Seq<u8>>;

/// A handle to one sled database.
pub struct Store {
    pub db: sled::Db,
}

impl Store {
    /// What this store holds.
    pub open spec fn map(&self) -> Map<Seq<char>, Seq<u8>> {
        store_map(self.db)
    }

    /// Relies on `sled::open`: opens (or creates) the database rooted at
    /// `path`; its contents are whatever the disk holds.
    #[verifier::external_body]
    pub fn open(path: &str) -> (r: Result<Store, sled::Error>)
    {
        Ok(Store { db: sled::open(path)? })
    }

    /// Relies on `sled::Config::temporary`: a fresh empty database, removed
    /// when dropped.
    #[verifier::external_body]
    pub fn temporary() -> (r: Result<Store, sled::Error>)
        ensures
            r matches Ok(s) ==> store_map(s.db) == (Map::<Seq<char>, Seq<u8>>::empty()),
    {
        Ok(Store { db: sled::Config::new().temporary(true).open()? })
    }

    /// Relies on `sled::Tree::get`: the value last written under the key.
    #[verifier::external_body]
    pub fn get(&self, key: &str) -> (r: Result<Option<Vec<u8>>, sled::Error>)
        ensures
            r matches Ok(o) ==> match o {
                Some(v) => store_map(self.db).contains_key(key@) && v@ == store_map(self.db)[key@],
                None => !store_map(self.db).contains_key(key@),
            },
    {
        match self.db.get(key) {
            Ok(Some(v)) => Ok(Some(v.to_vec())),
            Ok(None) => Ok(None),
            Err(e) => Err(e),
        }
    }

    /// Relies on `sled::Tree::insert`: sets the key to the value.
    #[verifier::external_body]
    pub fn put(&mut self, key: &str, value: &Vec<u8>) -> (r: Result<(), sled::Error>)
        ensures
            r is Ok ==> store_map(final(self).db) == store_map(old(self).db).insert(key@, value@),
    {
        self.db.insert(key, value.as_slice()).map(|_| ())
    }

    /// Relies on `sled::Tree::remove`: unsets the key.
    #[verifier::external_body]
    pub fn remove(&mut self, key: &str) -> (r: Result<(), sled::Error>)
        ensures
            r is Ok ==> store_map(final(self).db) == store_map(old(self).db).remove(key@),
    {
        self.db.remove(key).map(|_| ())
    }

    /// Relies on `sled::Tree::clear`: removes every entry.
    #[verifier::external_body]
    pub fn clear(&mut self) -> (r: Result<(), sled::Error>)
        ensures
            r is Ok ==> store_map(final(self).db) == (Map::<Seq<char>, Seq<u8>>::empty()),
    {
        self.db.clear()
    }

    /// Relies on `sled::Tree::flush`: persists what was written; the
    /// contents are unchanged.
    #[verifier::external_body]
    pub fn flush(&mut self) -> (r: Result<(), sled::Error>)
        ensures
            store_map(final(self).db) == store_map(old(self).db),
    {
        self.db.flush().map(|_| ())
    }

    /// Relies on `sled::Tree::iter`: every entry, each key once; keys this
    /// library did not write as UTF-8 are skipped.
    #[verifier::external_body]
    pub fn scan(&self) -> (r: Result<Vec<(String, Vec<u8>)>, sled::Error>)
        ensures
            r matches Ok(entries) ==> {
                &&& forall|i: int|
                    0 <= i < entries@.len() ==> store_map(self.db).contains_key(
                        #[trigger] entries@[i].0@,
                    ) && entries@[i].1@ == store_map(self.db)[entries@[i].0@]
                &&& forall|k: Seq<char>|
                    store_map(self.db).contains_key(k) ==> exists|i: int|
                        0 <= i < entries@.len() && #[trigger] entries@[i].0@ == k
                &&& forall|i: int, j: int|
                    0 <= i < j < entries@.len() ==> entries@[i].0@ != entries@[j].0@
            },
    {
        let mut out: Vec<(String, Vec<u8>)> = Vec::new();
        for item in self.db.iter() {
            let (k, v) = item?;
            if let Ok(s) = String::from_utf8(k.to_vec()) {
                out.push((s, v.to_vec()));
            }
        }
        Ok(out)
    }
}

} // verus!
