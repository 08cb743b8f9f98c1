//! Blob objects: opaque byte payloads representing file contents.
use vstd::prelude::*;

use crate::Error;

verus! {

/// An opaque byte payload. The envelope payload of a blob is its content,
/// verbatim.
#[derive(Debug, PartialEq)]
pub struct Blob {
    pub content: Vec<u8>,
}

impl View for Blob {
    type V = Seq<u8>;

    open spec fn view(&self) -> Seq<u8> {
        self.content@
    }
}

impl Blob {
    /// A blob's payload is exactly its content.
    pub fn serialize(&self) -> (r: Vec<u8>)
        ensures
            r@ == self@,
    {
        vstd::slice::slice_to_vec(self.content.as_slice())
    }

    /// Blobs have no internal structure: every payload is accepted verbatim.
    pub fn deserialize(bytes: Vec<u8>) -> (r: Result<Self, Error>)
        ensures
            r matches Ok(b) && b@ == bytes@,
    {
        Ok(Self { content: bytes })
    }
}

} // verus!
