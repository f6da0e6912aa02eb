//! The paginated lister's accumulator.
//!
//! The listing service answers a prefix query one page at a time. The glue
//! code drives the paging loop (each page fetch is a network call) and feeds
//! every page, in the order the service returned them, into a [`Lister`]. The
//! accumulated entries are exactly the concatenation of all pages; selection
//! must only run on the full accumulation, never on a partial one, and the
//! accumulator makes that relation checkable.

use vstd::prelude::*;

use crate::model::BlobEntry;
use crate::model::BlobEntrySpec;

verus! {

/// Accumulates listing pages into one ordered entry sequence.
pub struct Lister {
    entries: Vec<BlobEntry>,
    pages: Ghost<Seq<Seq<BlobEntrySpec>>>,
}

impl Lister {
    /// The pages fed in so far, in arrival order.
    pub closed spec fn pages(&self) -> Seq<Seq<BlobEntrySpec>> {
        self.pages@
    }

    /// The accumulated entries are exactly the concatenation of the pages.
    pub closed spec fn wf(&self) -> bool {
        self.entries.deep_view() == self.pages@.flatten()
    }

    /// An empty accumulator: no pages seen yet.
    pub fn new() -> (r: Lister)
        ensures
            r.wf(),
            r.pages() == Seq::<Seq<BlobEntrySpec>>::empty(),
    {
        let r = Lister { entries: Vec::new(), pages: Ghost(Seq::empty()) };
        proof {
            assert(r.entries.deep_view() =~= Seq::<Seq<BlobEntrySpec>>::empty().flatten());
        }
        r
    }

    /// Appends one page of entries, in the order the service returned them.
    pub fn add_page(&mut self, page: Vec<BlobEntry>)
        requires
            old(self).wf(),
        ensures
            final(self).wf(),
            final(self).pages() == old(self).pages().push(page.deep_view()),
    {
        let ghost p = page.deep_view();
        let mut page = page;
        self.pages = Ghost(self.pages@.push(p));
        self.entries.append(&mut page);
        proof {
            assert(self.entries.deep_view() =~= old(self).entries.deep_view() + p);
            old(self).pages@.lemma_flatten_push(p);
        }
    }

    /// Hands out the accumulated entries: the concatenation of every page, in
    /// request order.
    pub fn into_entries(self) -> (r: Vec<BlobEntry>)
        requires
            self.wf(),
        ensures
            r.deep_view() == self.pages().flatten(),
    {
        self.entries
    }
}

/// Law: the accumulated listing depends only on the concatenation of the
/// pages. A service answering with one page that holds all entries, and one
/// answering with the same entries split over many pages, accumulate to the
/// same sequence.
pub proof fn lemma_one_page_equals_many(pages: Seq<Seq<BlobEntrySpec>>)
    ensures
        seq![pages.flatten()].flatten() == pages.flatten(),
{
    seq![pages.flatten()].lemma_flatten_one_element();
}

} // verus!
