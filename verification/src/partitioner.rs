//! Assignment of intermediate keys to reducers.

use std::collections::hash_map::DefaultHasher;
use std::hash::Hasher;
use std::sync::Arc;

use vstd::prelude::*;
use vstd::std_specs::hash::DefaultHasherAdditionalSpecFns;
use vstd::utf8::encode_utf8;

use crate::error::MapReduceError;
use crate::record::Key;
use crate::text::text;

verus! {

pub trait Partitioner: Send + Sync {
    /// The outcomes this partitioner allows for `key` among `reducers` reducers. A
    /// partitioner that does not describe its outcomes allows any.
    open spec fn partition_allows(&self, key: Key, reducers: usize, r: Result<usize, MapReduceError>) -> bool {
        true
    }

    fn partition(&self, key: &Key, reducers: usize) -> (r: Result<usize, MapReduceError>)
        ensures
            self.partition_allows(*key, reducers, r),
    ;
}

/// A shared partitioner partitions as the partitioner it shares.
impl<T: Partitioner + ?Sized> Partitioner for Arc<T> {
    open spec fn partition_allows(&self, key: Key, reducers: usize, r: Result<usize, MapReduceError>) -> bool {
        (**self).partition_allows(key, reducers, r)
    }

    fn partition(&self, key: &Key, reducers: usize) -> (r: Result<usize, MapReduceError>) {
        (**self).partition(key, reducers)
    }
}

/// Hash partitioning with std's `DefaultHasher`.
#[derive(Debug, Default)]
pub struct DefaultPartitioner;

/// The bytes that hashing a string feeds to the hasher: its UTF-8 encoding,
/// then the terminator byte `0xff`.
pub open spec fn key_hash_input(key: Seq<char>) -> Seq<Seq<u8>> {
    seq![encode_utf8(key), seq![0xffu8]]
}

/// The reducer that the default partitioner picks for a key.
pub open spec fn default_partition(key: Seq<char>, reducers: usize) -> usize {
    ((#[verifier::truncate] (DefaultHasher::spec_finish(key_hash_input(key)) as usize)) % reducers) as usize
}

pub open spec fn zero_reducers_message() -> Seq<char> {
    "number of reducers must be greater than zero"@
}

impl Partitioner for DefaultPartitioner {
    open spec fn partition_allows(&self, key: Key, reducers: usize, r: Result<usize, MapReduceError>) -> bool {
        &&& reducers == 0 ==> (r matches Err(MapReduceError::InvalidJobConfig(m))
            && m@ == zero_reducers_message())
        &&& reducers > 0 ==> r == Ok::<usize, MapReduceError>(default_partition(key@, reducers))
    }

    fn partition(&self, key: &Key, reducers: usize) -> (r: Result<usize, MapReduceError>)
        ensures
            reducers == 0 ==> (r matches Err(MapReduceError::InvalidJobConfig(m))
                && m@ == zero_reducers_message()),
            reducers > 0 ==> r == Ok::<usize, MapReduceError>(default_partition(key@, reducers)),
    {
        if reducers == 0 {
            return Err(
                MapReduceError::InvalidJobConfig(text("number of reducers must be greater than zero")),
            );
        }
        let mut hasher = DefaultHasher::new();
        let bytes = key.as_str().as_bytes();
        assert(bytes@ == encode_utf8(key@));
        hasher.write(bytes);
        let mut terminator: Vec<u8> = Vec::new();
        terminator.push(0xffu8);
        hasher.write(terminator.as_slice());
        assert(hasher@ =~= key_hash_input(key@));
        Ok((#[verifier::truncate] (hasher.finish() as usize)) % reducers)
    }
}

/// Equal keys always go to the same reducer, and every key goes to one of the
/// `reducers` reducers.
pub proof fn lemma_default_partition_deterministic_and_in_range(
    a: Seq<char>,
    b: Seq<char>,
    reducers: usize,
)
    requires
        reducers > 0,
    ensures
        a == b ==> default_partition(a, reducers) == default_partition(b, reducers),
        default_partition(a, reducers) < reducers,
{
}

} // verus!
