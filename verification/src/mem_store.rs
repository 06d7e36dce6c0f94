//! The in-memory engine: the same capability contract over a bare mapping,
//! with no persistence. It never fails, which makes it the reference
//! backend for behavioural equivalence.

use vstd::prelude::*;

use crate::engine::KvsEngine;
use crate::err::Error;
use crate::kv_map::KvMap;

verus! {

/// A backend that keeps everything in memory and forgets it on drop.
pub struct MemStore {
    map: KvMap,
}

impl MemStore {
    /// An empty in-memory store.
    pub fn new() -> (r: Self)
        ensures
            r.inv(),
            r.kv() == Map::<Seq<char>, Seq<char>>::empty(),
    {
        MemStore { map: KvMap::new() }
    }
}

impl KvsEngine for MemStore {
    closed spec fn inv(&self) -> bool {
        self.map.wf()
    }

    closed spec fn kv(&self) -> Map<Seq<char>, Seq<char>> {
        self.map@
    }

    open spec fn reliable(&self) -> bool {
        true
    }

    open spec fn spec_name(&self) -> Seq<char> {
        "in-memory"@
    }

    fn set(&mut self, key: String, value: String) -> (r: Result<(), Error>) {
        self.map.insert(key, value);
        Ok(())
    }

    fn get(&self, key: String) -> (r: Result<Option<String>, Error>) {
        match self.map.get(&key) {
            Some(v) => Ok(Some(v.clone())),
            None => Ok(None),
        }
    }

    fn remove(&mut self, key: String) -> (r: Result<Option<String>, Error>) {
        Ok(self.map.remove(&key))
    }

    fn name(&self) -> (r: &'static str) {
        "in-memory"
    }
}

} // verus!
