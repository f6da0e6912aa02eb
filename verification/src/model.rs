//! The object model: a blob record (name and last-modified timestamp) and the
//! raw listing-entry variant it is derived from.
//!
//! Names are byte strings; timestamps are signed 64-bit values (seconds or any
//! other fixed unit — the library only compares them).

use vstd::prelude::*;

verus! {

/// Mathematical model of a blob: its name as a byte sequence and its
/// last-modified timestamp as an unbounded integer.
pub struct BlobSpec {
    pub name: Seq<u8>,
    pub last_updated: int,
}

/// A blob record: the name of an object in the container and the instant it
/// was last modified.
pub struct Blob {
    pub name: Vec<u8>,
    pub last_updated: i64,
}

impl View for Blob {
    type V = BlobSpec;

    open spec fn view(&self) -> BlobSpec {
        BlobSpec { name: self.name@, last_updated: self.last_updated as int }
    }
}

impl DeepView for Blob {
    type V = BlobSpec;

    open spec fn deep_view(&self) -> BlobSpec {
        self@
    }
}

impl Blob {
    /// Builds a blob record from its parts.
    pub fn new(name: Vec<u8>, last_updated: i64) -> (r: Blob)
        ensures
            r@ == (BlobSpec { name: name@, last_updated: last_updated as int }),
    {
        Blob { name, last_updated }
    }

    /// Copies the record; the copy models the same blob.
    pub fn duplicate(&self) -> (r: Blob)
        ensures
            r@ == self@,
    {
        let name = self.name.clone();
        proof {
            assert(name@ =~= self.name@);
        }
        Blob { name, last_updated: self.last_updated }
    }
}

/// Mathematical model of one raw listing entry.
pub enum BlobEntrySpec {
    /// A real, addressable object.
    Blob(BlobSpec),
    /// A virtual "folder": a common prefix shared by several object names,
    /// not an object itself.
    BlobPrefix(Seq<u8>),
}

/// One entry of a listing response: either a real object or a grouping
/// prefix (a virtual folder, never addressable content).
pub enum BlobEntry {
    Blob(Blob),
    BlobPrefix(Vec<u8>),
}

impl View for BlobEntry {
    type V = BlobEntrySpec;

    open spec fn view(&self) -> BlobEntrySpec {
        match self {
            BlobEntry::Blob(b) => BlobEntrySpec::Blob(b@),
            BlobEntry::BlobPrefix(p) => BlobEntrySpec::BlobPrefix(p@),
        }
    }
}

impl DeepView for BlobEntry {
    type V = BlobEntrySpec;

    open spec fn deep_view(&self) -> BlobEntrySpec {
        self@
    }
}

/// Converts a listing entry into a blob record: a real object is kept, a
/// grouping prefix is discarded.
pub fn make_blob(entry: BlobEntry) -> (r: Option<Blob>)
    ensures
        entry@ matches BlobEntrySpec::Blob(b) ==> (r matches Some(blob) && blob@ == b),
        entry@ is BlobPrefix ==> r is None,
{
    match entry {
        BlobEntry::Blob(b) => Some(b),
        BlobEntry::BlobPrefix(_) => None,
    }
}

} // verus!
