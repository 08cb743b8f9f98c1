//! Tag objects: annotated-tag payloads, preserved verbatim.
use vstd::prelude::*;

use crate::Error;

verus! {

/// An annotated-tag payload. This core does not parse its structure; the
/// payload is preserved verbatim.
#[derive(Debug, PartialEq)]
pub struct Tag {
    pub content: Vec<u8>,
}

impl View for Tag {
    type V = Seq<u8>;

    open spec fn view(&self) -> Seq<u8> {
        self.content@
    }
}

impl Tag {
    /// A tag's payload is exactly its content.
    pub fn serialize(&self) -> (r: Vec<u8>)
        ensures
            r@ == self@,
    {
        vstd::slice::slice_to_vec(self.content.as_slice())
    }

    /// Tags are kept opaque: every payload is accepted verbatim.
    pub fn deserialize(bytes: Vec<u8>) -> (r: Result<Self, Error>)
        ensures
            r matches Ok(t) && t@ == bytes@,
    {
        Ok(Self { content: bytes })
    }
}

} // verus!
