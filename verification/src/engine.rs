//! The engine interface: the capability set `{set, get, remove}` over which
//! the server is polymorphic, so that one storage engine can stand in for
//! another.

use crate::codec::FRAME_OVERHEAD;
use crate::error::KvError;
use crate::kv::{apply_actions, Action, KvStore};
use vstd::prelude::*;

verus! {

/// A key/value storage engine.
///
/// `state()` is the abstract key/value mapping and `disk_model()` the disk
/// image the engine expects; applying the actions an operation returns, in
/// order, keeps the real data directory equal to `disk_model()`.
pub trait KvEngine: Sized {
    /// The engine invariant.
    spec fn inv(&self) -> bool;

    /// The abstract key/value state.
    spec fn state(&self) -> Map<Seq<u8>, Seq<u8>>;

    /// The disk image the engine expects.
    spec fn disk_model(&self) -> Map<u64, Seq<u8>>;

    /// Machine limits under which a `set` of these byte lengths is accepted.
    spec fn fits_set(&self, klen: int, vlen: int) -> bool;

    /// Machine limits under which a `remove` of this byte length is
    /// accepted.
    spec fn fits_remove(&self, klen: int) -> bool;

    /// Run-time check of `fits_set`.
    fn set_ok(&self, key: &Vec<u8>, value: &Vec<u8>) -> (r: bool)
        requires
            self.inv(),
        ensures
            r == self.fits_set(key@.len() as int, value@.len() as int),
    ;

    /// Run-time check of `fits_remove`.
    fn remove_ok(&self, key: &Vec<u8>) -> (r: bool)
        requires
            self.inv(),
        ensures
            r == self.fits_remove(key@.len() as int),
    ;

    /// Set the value of a key, overwriting any previous value.
    fn set(&mut self, key: Vec<u8>, value: Vec<u8>) -> (r: Result<Vec<Action>, KvError>)
        requires
            old(self).inv(),
            old(self).fits_set(key@.len() as int, value@.len() as int),
        ensures
            final(self).inv(),
            final(self).state() == old(self).state().insert(key@, value@),
            match r {
                Ok(acts) => final(self).disk_model() == apply_actions(
                    old(self).disk_model(),
                    acts@,
                ),
                Err(_) => false,
            },
    ;

    /// Get the value of a key; an absent key yields nothing.  A returned
    /// value is never too large to travel in one response frame.
    fn get(&self, key: &Vec<u8>) -> (r: Result<Option<Vec<u8>>, KvError>)
        requires
            self.inv(),
        ensures
            match r {
                Ok(Some(v)) => self.state().contains_key(key@) && v@ == self.state()[key@]
                    && v@.len() + FRAME_OVERHEAD <= u32::MAX,
                Ok(None) => !self.state().contains_key(key@),
                Err(_) => false,
            },
    ;

    /// Remove a key; fails with *key not found*, changing nothing, if the
    /// key is absent.
    fn remove(&mut self, key: &Vec<u8>) -> (r: Result<Vec<Action>, KvError>)
        requires
            old(self).inv(),
            old(self).state().contains_key(key@) ==> old(self).fits_remove(key@.len() as int),
        ensures
            final(self).inv(),
            match r {
                Ok(acts) => {
                    &&& old(self).state().contains_key(key@)
                    &&& final(self).state() == old(self).state().remove(key@)
                    &&& final(self).disk_model() == apply_actions(old(self).disk_model(), acts@)
                },
                Err(e) => {
                    &&& e == KvError::NotFound
                    &&& !old(self).state().contains_key(key@)
                    &&& final(self).state() == old(self).state()
                    &&& final(self).disk_model() == old(self).disk_model()
                },
            },
    ;
}

impl KvEngine for KvStore {
    open spec fn inv(&self) -> bool {
        self.wf()
    }

    open spec fn state(&self) -> Map<Seq<u8>, Seq<u8>> {
        self.kv()
    }

    open spec fn disk_model(&self) -> Map<u64, Seq<u8>> {
        self.disk()
    }

    open spec fn fits_set(&self, klen: int, vlen: int) -> bool {
        self.can_set(klen, vlen)
    }

    open spec fn fits_remove(&self, klen: int) -> bool {
        self.can_remove(klen)
    }

    fn set_ok(&self, key: &Vec<u8>, value: &Vec<u8>) -> (r: bool) {
        self.set_fits(key, value)
    }

    fn remove_ok(&self, key: &Vec<u8>) -> (r: bool) {
        self.remove_fits(key)
    }

    fn set(&mut self, key: Vec<u8>, value: Vec<u8>) -> (r: Result<Vec<Action>, KvError>) {
        KvStore::set(self, key, value)
    }

    fn get(&self, key: &Vec<u8>) -> (r: Result<Option<Vec<u8>>, KvError>) {
        let res = KvStore::get(self, key);
        proof {
            if res matches Ok(Some(ref v)) {
                crate::kv::lemma_value_bounded(self, key@);
            }
        }
        res
    }

    fn remove(&mut self, key: &Vec<u8>) -> (r: Result<Vec<Action>, KvError>) {
        KvStore::remove(self, key)
    }
}

} // verus!
