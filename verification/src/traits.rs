//! Serialization capabilities: types that can lay themselves out as the flat
//! byte buffers the external compute stage consumes.

use vstd::prelude::*;

verus! {

/// A type with a canonical flat byte form.
pub trait AsBytes {
    /// When the byte form is well defined (lengths in range).
    spec fn bytes_wf(&self) -> bool;

    /// The byte form itself.
    spec fn bytes_spec(&self) -> Seq<u8>;

    /// What `bytes_size` reports.
    spec fn bytes_size_spec(&self) -> int;

    fn as_bytes(&self) -> (r: Vec<u8>)
        requires
            self.bytes_wf(),
        ensures
            r@ == self.bytes_spec(),
    ;

    fn bytes_size(&self) -> (n: usize)
        requires
            self.bytes_wf(),
        ensures
            n == self.bytes_size_spec(),
    ;
}

/// A type that can fill a sized uniform buffer, with a length header and
/// per-record padding.
pub trait Buffer {
    /// When the buffer form is well defined (lengths in range).
    spec fn buffer_wf(&self) -> bool;

    /// The buffer contents.
    spec fn buffer_spec(&self) -> Seq<u8>;

    /// What `buffer_size` reports.
    spec fn buffer_size_spec(&self) -> int;

    fn to_buffer(&self) -> (r: Vec<u8>)
        requires
            self.buffer_wf(),
        ensures
            r@ == self.buffer_spec(),
    ;

    fn buffer_size(&self) -> (n: usize)
        requires
            self.buffer_wf(),
        ensures
            n == self.buffer_size_spec(),
    ;
}

} // verus!
