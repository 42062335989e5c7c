//! The operations that a storage engine offers to the server.
use vstd::prelude::*;
use crate::error::{KvsError, Result};
use crate::kv::KvStore;

verus! {

/// A key/value storage engine.
pub trait KvsEngine {
    /// The engine's internal invariant.
    spec fn ready(&self) -> bool;

    /// The stored key/value pairs.
    spec fn contents(&self) -> Map<Seq<char>, Seq<char>>;

    /// Sets `key` to `value`.
    fn set(&mut self, key: String, value: String) -> (r: Result<()>)
        requires
            old(self).ready(),
        ensures
            final(self).ready(),
            r is Ok ==> final(self).contents() == old(self).contents().insert(key@, value@),
    ;

    /// Gets the value of `key`; `None` when it is not stored.
    fn get(&self, key: String) -> (r: Result<Option<String>>)
        requires
            self.ready(),
        ensures
            r matches Ok(o) ==> (o matches Some(v) ==> self.contents().contains_key(key@) && v@
                == self.contents()[key@]) && (o is None ==> !self.contents().contains_key(key@)),
    ;

    /// Removes `key`; fails with `KeyNotFound` when it is not stored.
    fn remove(&mut self, key: String) -> (r: Result<()>)
        requires
            old(self).ready(),
        ensures
            final(self).ready(),
            r is Ok ==> final(self).contents() == old(self).contents().remove(key@),
            !old(self).contents().contains_key(key@) ==> r == Err::<(), KvsError>(
                KvsError::KeyNotFound,
            ) && final(self).contents() == old(self).contents(),
    ;
}

impl KvsEngine for KvStore {
    open spec fn ready(&self) -> bool {
        self.wf()
    }

    open spec fn contents(&self) -> Map<Seq<char>, Seq<char>> {
        self@
    }

    fn set(&mut self, key: String, value: String) -> (r: Result<()>) {
        KvStore::set(self, key, value)
    }

    fn get(&self, key: String) -> (r: Result<Option<String>>) {
        KvStore::get(self, key)
    }

    fn remove(&mut self, key: String) -> (r: Result<()>) {
        KvStore::remove(self, key)
    }
}

} // verus!
