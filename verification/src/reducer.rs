//! The user-supplied reduce function.

use std::sync::Arc;

use vstd::prelude::*;

use crate::emitter::VecEmitter;
use crate::error::MapReduceError;
use crate::record::{Key, Value};

verus! {

pub trait Reducer: Send + Sync {
    /// The outcomes this reducer allows for one call on `key` and its `values`:
    /// the pairs in the emitter before and after the call, and what it returns. A
    /// reducer that does not describe its outcomes allows any.
    open spec fn reduce_allows(
        &self,
        key: Key,
        values: Seq<Value>,
        before: Seq<(Key, Value)>,
        after: Seq<(Key, Value)>,
        r: Result<(), MapReduceError>,
    ) -> bool {
        true
    }

    fn reduce(&self, key: Key, values: Vec<Value>, emitter: &mut VecEmitter) -> (r: Result<
        (),
        MapReduceError,
    >)
        ensures
            self.reduce_allows(key, values@, old(emitter)@, final(emitter)@, r),
    ;
}

/// A shared reducer reduces as the reducer it shares.
impl<T: Reducer + ?Sized> Reducer for Arc<T> {
    open spec fn reduce_allows(
        &self,
        key: Key,
        values: Seq<Value>,
        before: Seq<(Key, Value)>,
        after: Seq<(Key, Value)>,
        r: Result<(), MapReduceError>,
    ) -> bool {
        (**self).reduce_allows(key, values, before, after, r)
    }

    fn reduce(&self, key: Key, values: Vec<Value>, emitter: &mut VecEmitter) -> (r: Result<
        (),
        MapReduceError,
    >) {
        (**self).reduce(key, values, emitter)
    }
}

} // verus!
