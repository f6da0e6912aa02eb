//! The streaming retriever's buffer and the text check that guards
//! materialization.
//!
//! The content of an object arrives as an ordered stream of byte chunks. The
//! glue code reads each chunk (a network call) and feeds it, in arrival
//! order, into a [`ChunkBuffer`]; the assembled content is exactly the
//! concatenation of the chunks, in order — out-of-order assembly would
//! corrupt the content. Before the bytes reach the disk they are checked to
//! be well-formed text; bytes that are not yield a decode error instead of a
//! corrupted file.

use vstd::prelude::*;

use crate::errors::StorageError;

verus! {

/// Accumulates the chunks of one object's content stream.
pub struct ChunkBuffer {
    buf: Vec<u8>,
    chunks: Ghost<Seq<Seq<u8>>>,
}

impl ChunkBuffer {
    /// The chunks fed in so far, in arrival order.
    pub closed spec fn chunks(&self) -> Seq<Seq<u8>> {
        self.chunks@
    }

    /// The buffer is exactly the concatenation of the chunks.
    pub closed spec fn wf(&self) -> bool {
        self.buf@ == self.chunks@.flatten()
    }

    /// An empty buffer: no chunk seen yet.
    pub fn new() -> (r: ChunkBuffer)
        ensures
            r.wf(),
            r.chunks() == Seq::<Seq<u8>>::empty(),
    {
        let r = ChunkBuffer { buf: Vec::new(), chunks: Ghost(Seq::empty()) };
        proof {
            assert(r.buf@ =~= Seq::<Seq<u8>>::empty().flatten());
        }
        r
    }

    /// Appends one chunk's bytes to the buffer.
    pub fn add_chunk(&mut self, chunk: Vec<u8>)
        requires
            old(self).wf(),
        ensures
            final(self).wf(),
            final(self).chunks() == old(self).chunks().push(chunk@),
    {
        let ghost c = chunk@;
        let mut chunk = chunk;
        self.chunks = Ghost(self.chunks@.push(c));
        self.buf.append(&mut chunk);
        proof {
            old(self).chunks@.lemma_flatten_push(c);
        }
    }

    /// Hands out the assembled content: every chunk's bytes, concatenated in
    /// arrival order.
    pub fn into_bytes(self) -> (r: Vec<u8>)
        requires
            self.wf(),
        ensures
            r@ == self.chunks().flatten(),
    {
        self.buf
    }
}

/// Whether a byte sequence is well-formed text. Exactly the byte sequences
/// that `core::str::from_utf8` accepts.
pub uninterp spec fn is_utf8(bytes: Seq<u8>) -> bool;

/// Relies on core::str::from_utf8: it returns `Ok` exactly on well-formed
/// UTF-8 input, and that depends on the bytes alone.
#[verifier::external_body]
fn utf8_check(bytes: &Vec<u8>) -> (r: bool)
    ensures
        r == is_utf8(bytes@),
{
    core::str::from_utf8(bytes.as_slice()).is_ok()
}

/// Validates retrieved content as text and passes the bytes through
/// untouched; content that is not well-formed text yields the decode error
/// and nothing is handed on to the disk.
pub fn validate_text(bytes: Vec<u8>) -> (r: Result<Vec<u8>, StorageError>)
    ensures
        is_utf8(bytes@) ==> (r matches Ok(c) && c@ == bytes@),
        !is_utf8(bytes@) ==> (r matches Err(e) && e is Decode),
{
    if utf8_check(&bytes) {
        Ok(bytes)
    } else {
        Err(StorageError::Decode)
    }
}

} // verus!
