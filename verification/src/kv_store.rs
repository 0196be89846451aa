//! The engine façade: a thin wrapper over the concrete log engine,
//! so that alternative engines behind the [`Storage`] capability can
//! be substituted without touching callers.

use vstd::prelude::*;
use vstd::utf8::{decode_utf8, encode_utf8};

use crate::error::KvsError;
use crate::replay::{spec_recover, Recovery};
use crate::storage::{wasted_after_set, Bitcask, Storage, COMPACTION_THRESHOLD};

verus! {

/// A persistent key-value store over the contents of one data file.
pub struct KvStore {
    /// The selected engine.
    pub storage: Bitcask,
}

impl KvStore {
    /// The store is in a state some sequence of operations can
    /// produce: `open` establishes this and every operation keeps it.
    pub open spec fn inv(&self) -> bool {
        self.storage.inv()
    }

    /// The map of live keys to values, both as UTF-8 bytes.
    pub open spec fn live(&self) -> Map<Seq<u8>, Seq<u8>> {
        self.storage.live()
    }

    /// The wasted-bytes counter of the engine.
    pub open spec fn wasted(&self) -> u64 {
        self.storage.wasted()
    }

    /// The size of the backing log in bytes.
    pub open spec fn log_size(&self) -> int {
        self.storage.log_size()
    }

    /// Opens a store on the contents of a data file, replaying the
    /// log to rebuild the in-memory index.  On a log a store
    /// previously produced, the rebuilt store observes exactly the
    /// live map of that store (see [`crate::storage::lemma_log_round_trip`]).
    pub fn open(data: Vec<u8>) -> (r: Result<KvStore, KvsError>)
        ensures
            match spec_recover(data@) {
                Recovery::Complete { end, live } => {
                    &&& r is Ok
                    &&& r->Ok_0.inv()
                    &&& r->Ok_0.live() == live
                    &&& r->Ok_0.storage.log@ == data@.subrange(0, end)
                    &&& r->Ok_0.wasted() == 0
                },
                Recovery::BadCmd => r == Err::<KvStore, KvsError>(KvsError::ReprDecode),
                Recovery::BadText => r == Err::<KvStore, KvsError>(KvsError::StringDecode),
            },
    {
        match Bitcask::open(data) {
            Ok(storage) => Ok(KvStore { storage }),
            Err(e) => Err(e),
        }
    }

    /// Returns the current value of `key`: the value of the most
    /// recent `set` of that key not followed by a `remove`, and
    /// `None` when there is no such `set`.
    pub fn get(&mut self, key: String) -> (r: Result<Option<String>, KvsError>)
        requires
            old(self).inv(),
        ensures
            final(self).inv(),
            final(self).live() == old(self).live(),
            final(self).wasted() == old(self).wasted(),
            final(self).log_size() == old(self).log_size(),
            ({
                let kb = encode_utf8(key@);
                if old(self).live().contains_key(kb) {
                    &&& r is Ok
                    &&& r->Ok_0 is Some
                    &&& r->Ok_0->Some_0@ == decode_utf8(old(self).live()[kb])
                    &&& encode_utf8(r->Ok_0->Some_0@) == old(self).live()[kb]
                } else {
                    r == Ok::<Option<String>, KvsError>(None)
                }
            }),
    {
        self.storage.get(key)
    }

    /// Binds `key` to `value`, superseding any earlier binding; when
    /// the key was live, the superseded record's encoded size is
    /// added to the wasted-bytes counter, and reaching the threshold
    /// compacts the log.
    pub fn set(&mut self, key: String, value: String) -> (r: Result<(), KvsError>)
        requires
            old(self).inv(),
        ensures
            final(self).inv(),
            ({
                let kb = encode_utf8(key@);
                let vb = encode_utf8(value@);
                let fits = old(self).log_size() + 17 + kb.len() + vb.len() <= usize::MAX;
                let ws = wasted_after_set(old(self).live(), old(self).wasted(), kb);
                &&& (r is Ok <==> fits)
                &&& (r is Err ==> r->Err_0 == KvsError::IO && final(self).live() == old(self).live()
                    && final(self).wasted() == old(self).wasted() && final(self).log_size() == old(self).log_size())
                &&& (r is Ok ==> final(self).live() == old(self).live().insert(kb, vb))
                &&& (r is Ok && ws < COMPACTION_THRESHOLD ==> final(self).wasted() == ws && final(self).log_size() == old(self).log_size() + 17 + kb.len() + vb.len())
                &&& (r is Ok && ws >= COMPACTION_THRESHOLD ==> final(self).wasted() == 0)
            }),
    {
        self.storage.set(key, value)
    }

    /// Removes `key`; fails with `KeyNotFound`, appending nothing,
    /// when the key is not live.
    pub fn remove(&mut self, key: String) -> (r: Result<(), KvsError>)
        requires
            old(self).inv(),
        ensures
            final(self).inv(),
            ({
                let kb = encode_utf8(key@);
                let present = old(self).live().contains_key(kb);
                let fits = old(self).log_size() + 17 + kb.len() <= usize::MAX;
                &&& (r is Ok <==> present && fits)
                &&& (!present ==> r == Err::<(), KvsError>(KvsError::KeyNotFound) && final(self).live() == old(self).live() && final(self).wasted() == old(self).wasted() && final(self).log_size() == old(self).log_size())
                &&& (present && !fits ==> r == Err::<(), KvsError>(KvsError::IO) && final(self).live() == old(self).live() && final(self).wasted() == old(self).wasted() && final(self).log_size() == old(self).log_size())
                &&& (r is Ok ==> final(self).live() == old(self).live().remove(kb) && final(self).wasted() == old(self).wasted() && final(self).log_size() == old(self).log_size()
                    + 17 + kb.len())
            }),
    {
        self.storage.remove(key)
    }

    /// The current contents of the data file: persisting exactly
    /// these bytes lets a later `open` rebuild this store.
    pub fn data(&self) -> (r: &Vec<u8>)
        ensures
            r@ == self.storage.log@,
    {
        &self.storage.log
    }
}

/// How the live map read by `get` evolves under `set` and `remove`:
/// a `set` of `k` binds exactly `k` to the new value, a `remove` of
/// `k` unbinds exactly `k`, and neither touches any other key.  With
/// the contracts of `get`, `set` and `remove` this says that after
/// any sequence of operations, `get(k)` returns the value of the
/// most recent `set(k, v)` not followed by a `remove(k)`, and `None`
/// when there is no such `set`.
pub proof fn lemma_live_map_evolution(
    m: Map<Seq<u8>, Seq<u8>>,
    k: Seq<u8>,
    v: Seq<u8>,
    k2: Seq<u8>,
)
    ensures
        m.insert(k, v).contains_key(k) && m.insert(k, v)[k] == v,
        !m.remove(k).contains_key(k),
        k2 != k ==> m.insert(k, v).contains_key(k2) == m.contains_key(k2),
        k2 != k && m.contains_key(k2) ==> m.insert(k, v)[k2] == m[k2],
        k2 != k ==> m.remove(k).contains_key(k2) == m.contains_key(k2),
        k2 != k && m.contains_key(k2) ==> m.remove(k)[k2] == m[k2],
{
    broadcast use vstd::map::group_map_axioms;

}

/// Distinct string keys have distinct UTF-8 encodings, so an
/// operation on one key never observes or disturbs another.
pub proof fn lemma_key_encoding_injective(k1: Seq<char>, k2: Seq<char>)
    ensures
        encode_utf8(k1) == encode_utf8(k2) ==> k1 == k2,
{
    vstd::utf8::encode_utf8_decode_utf8(k1);
    vstd::utf8::encode_utf8_decode_utf8(k2);
}

} // verus!
