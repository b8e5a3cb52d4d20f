//! The guest-side return buffer: a value archived into bytes, ready to be
//! written at the return offset the host reserved.

use crate::wire::Wire;
use vstd::prelude::*;

verus! {

/// The archived bytes of a return value.
pub struct Scratch {
    bytes: Vec<u8>,
}

impl Scratch {
    pub closed spec fn spec_bytes(self) -> Seq<u8> {
        self.bytes@
    }

    /// Archives a value for the trip back across the isolation boundary.
    pub fn write<T: Wire>(t: &T) -> (r: Scratch)
        ensures
            r.spec_bytes() == t.to_wire(),
    {
        Scratch { bytes: t.encode() }
    }

    pub fn as_slice(&self) -> (r: &[u8])
        ensures
            r@ == self.spec_bytes(),
    {
        self.bytes.as_slice()
    }
}

} // verus!
