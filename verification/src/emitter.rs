//! Sinks for the key/value pairs that mappers and reducers produce.

use vstd::prelude::*;

use crate::record::{Key, Value};

verus! {

pub trait Emitter {
    fn emit(&mut self, key: Key, value: Value);
}

/// An emitter that keeps every pair, in the order emitted.
#[derive(Debug, Clone)]
pub struct VecEmitter {
    outputs: Vec<(Key, Value)>,
}

impl View for VecEmitter {
    type V = Seq<(Key, Value)>;

    closed spec fn view(&self) -> Seq<(Key, Value)> {
        self.outputs@
    }
}

impl VecEmitter {
    pub fn new() -> (r: Self)
        ensures
            r@ == Seq::<(Key, Value)>::empty(),
    {
        VecEmitter { outputs: Vec::new() }
    }

    pub fn outputs(&self) -> (r: &[(Key, Value)])
        ensures
            r@ == self@,
    {
        self.outputs.as_slice()
    }

    pub fn into_outputs(self) -> (r: Vec<(Key, Value)>)
        ensures
            r@ == self@,
    {
        self.outputs
    }
}

impl Default for VecEmitter {
    fn default() -> (r: Self)
        ensures
            r@ == Seq::<(Key, Value)>::empty(),
    {
        VecEmitter::new()
    }
}

impl Emitter for VecEmitter {
    fn emit(&mut self, key: Key, value: Value)
        ensures
            final(self)@ == old(self)@.push((key, value)),
    {
        self.outputs.push((key, value));
    }
}

} // verus!
