//! The user-supplied map function.

use std::sync::Arc;

use vstd::prelude::*;

use crate::emitter::VecEmitter;
use crate::error::MapReduceError;
use crate::record::{InputRecord, Key, Value};

verus! {

pub trait Mapper: Send + Sync {
    /// The outcomes this mapper allows for one call on `record`: the pairs in the
    /// emitter before and after the call, and what the call returns. A mapper that
    /// does not describe its outcomes allows any.
    open spec fn map_allows(
        &self,
        record: InputRecord,
        before: Seq<(Key, Value)>,
        after: Seq<(Key, Value)>,
        r: Result<(), MapReduceError>,
    ) -> bool {
        true
    }

    fn map(&self, record: InputRecord, emitter: &mut VecEmitter) -> (r: Result<(), MapReduceError>)
        ensures
            self.map_allows(record, old(emitter)@, final(emitter)@, r),
    ;
}

/// A shared mapper maps as the mapper it shares.
impl<T: Mapper + ?Sized> Mapper for Arc<T> {
    open spec fn map_allows(
        &self,
        record: InputRecord,
        before: Seq<(Key, Value)>,
        after: Seq<(Key, Value)>,
        r: Result<(), MapReduceError>,
    ) -> bool {
        (**self).map_allows(record, before, after, r)
    }

    fn map(&self, record: InputRecord, emitter: &mut VecEmitter) -> (r: Result<(), MapReduceError>) {
        (**self).map(record, emitter)
    }
}

} // verus!
