//! What a storage engine is: a map from keys to values behind three
//! operations.

use vstd::prelude::*;
use crate::error::KvsError;
use crate::store::KvStore;

verus! {

/// A key-value storage engine.
///
/// An engine stands for a map from keys to values, its `model`. The contracts
/// say what a call that succeeds has done to the model; when a call fails is
/// left to the engine.
pub trait KvsEngine {
    /// The map that the engine stands for.
    spec fn model(&self) -> Map<Seq<char>, Seq<char>>;

    /// The engine's invariant.
    spec fn inv(&self) -> bool;

    /// Binds `key` to `value`; an earlier value of `key` is overwritten.
    fn set(&mut self, key: String, value: String) -> (r: Result<(), KvsError>)
        requires
            old(self).inv(),
        ensures
            final(self).inv(),
            r is Ok ==> final(self).model() == old(self).model().insert(key@, value@),
    ;

    /// The value of `key`, or `None` where it has none.
    fn get(&mut self, key: String) -> (r: Result<Option<String>, KvsError>)
        requires
            old(self).inv(),
        ensures
            final(self).inv(),
            final(self).model() == old(self).model(),
            r matches Ok(Some(v)) ==> old(self).model().contains_key(key@) && v@ == old(
                self,
            ).model()[key@],
            r matches Ok(None) ==> !old(self).model().contains_key(key@),
    ;

    /// Unbinds `key`, which must be bound.
    fn remove(&mut self, key: String) -> (r: Result<(), KvsError>)
        requires
            old(self).inv(),
        ensures
            final(self).inv(),
            r is Ok ==> old(self).model().contains_key(key@) && final(self).model() == old(
                self,
            ).model().remove(key@),
    ;
}

impl KvsEngine for KvStore {
    open spec fn model(&self) -> Map<Seq<char>, Seq<char>> {
        self.contents()
    }

    open spec fn inv(&self) -> bool {
        self.wf()
    }

    fn set(&mut self, key: String, value: String) -> (r: Result<(), KvsError>)
        ensures
            final(self).contents() == old(self).contents().insert(key@, value@),
    {
        KvStore::set(self, key, value)
    }

    fn get(&mut self, key: String) -> (r: Result<Option<String>, KvsError>)
        ensures
            final(self)@ == old(self)@,
            r is Ok,
    {
        KvStore::get(self, key)
    }

    fn remove(&mut self, key: String) -> (r: Result<(), KvsError>)
        ensures
            !old(self).contents().contains_key(key@) ==> r is Err && r->Err_0 is KeyNotFound
                && final(self)@ == old(self)@,
            old(self).contents().contains_key(key@) ==> final(self).contents() == old(
                self,
            ).contents().remove(key@),
    {
        KvStore::remove(self, key)
    }
}

} // verus!
