//! The selector: filters the accumulated listing entries down to real objects
//! and picks the one modified most recently, ties broken by listing order.

use vstd::prelude::*;

use crate::model::Blob;
use crate::model::BlobEntry;
use crate::model::BlobEntrySpec;
use crate::model::BlobSpec;

verus! {

/// The real objects among the entries, as blob records, in listing order;
/// grouping prefixes are discarded.
pub open spec fn real_blobs(s: Seq<BlobEntrySpec>) -> Seq<BlobSpec>
    decreases s.len(),
{
    if s.len() == 0 {
        Seq::empty()
    } else {
        let rest = real_blobs(s.drop_last());
        match s.last() {
            BlobEntrySpec::Blob(b) => rest.push(b),
            BlobEntrySpec::BlobPrefix(_) => rest,
        }
    }
}

/// The blob a scan keeps when it walks the sequence left to right and
/// replaces its candidate only on a strictly larger timestamp: the first
/// blob carrying the maximal timestamp.
pub open spec fn pick_latest(s: Seq<BlobSpec>) -> Option<BlobSpec>
    decreases s.len(),
{
    if s.len() == 0 {
        None
    } else {
        match pick_latest(s.drop_last()) {
            None => Some(s.last()),
            Some(best) => if s.last().last_updated > best.last_updated {
                Some(s.last())
            } else {
                Some(best)
            },
        }
    }
}

/// Position `i` holds the maximal timestamp and every earlier position holds
/// a strictly smaller one.
pub open spec fn is_first_max(s: Seq<BlobSpec>, i: int) -> bool {
    &&& 0 <= i < s.len()
    &&& forall|j: int| 0 <= j < s.len() ==> s[j].last_updated <= s[i].last_updated
    &&& forall|j: int| 0 <= j < i ==> s[j].last_updated < s[i].last_updated
}

/// A non-empty sequence always yields a selection; an empty one never does.
pub proof fn lemma_pick_latest_some(s: Seq<BlobSpec>)
    ensures
        pick_latest(s) is Some <==> s.len() > 0,
{
}

/// Law: the selection is the first blob with the maximal timestamp — it
/// occurs in the sequence, nothing has a larger timestamp, and everything
/// before it has a strictly smaller one.
pub proof fn lemma_pick_latest_is_first_max(s: Seq<BlobSpec>)
    requires
        s.len() > 0,
    ensures
        pick_latest(s) is Some,
        exists|i: int| is_first_max(s, i) && pick_latest(s) == Some(s[i]),
    decreases s.len(),
{
    if s.len() == 1 {
        assert(s[0] == s.last());
        assert(is_first_max(s, 0));
        assert(pick_latest(s) == Some(s[0]));
    } else {
        let t = s.drop_last();
        lemma_pick_latest_is_first_max(t);
        let i = choose|i: int| is_first_max(t, i) && pick_latest(t) == Some(t[i]);
        let k = s.len() - 1;
        assert(s[k] == s.last());
        assert(forall|j: int| 0 <= j < k ==> s[j] == t[j]);
        if s.last().last_updated > t[i].last_updated {
            assert(pick_latest(s) == Some(s[k]));
            assert forall|j: int| 0 <= j < k implies s[j].last_updated < s[k].last_updated by {
                assert(t[j].last_updated <= t[i].last_updated);
            }
            assert(is_first_max(s, k));
        } else {
            assert(s[i] == t[i]);
            assert(pick_latest(s) == Some(s[i]));
            assert(is_first_max(s, i));
        }
    }
}

/// Every blob the selector considers comes from a real-object entry of the
/// listing, never from a grouping prefix.
pub proof fn lemma_real_blobs_from_entries(s: Seq<BlobEntrySpec>, k: int)
    requires
        0 <= k < real_blobs(s).len(),
    ensures
        exists|i: int|
            0 <= i < s.len() && s[i] == BlobEntrySpec::Blob(real_blobs(s)[k]),
    decreases s.len(),
{
    let t = s.drop_last();
    let rest = real_blobs(t);
    match s.last() {
        BlobEntrySpec::Blob(b) => {
            if k == rest.len() {
                assert(s[s.len() - 1] == BlobEntrySpec::Blob(real_blobs(s)[k]));
            } else {
                lemma_real_blobs_from_entries(t, k);
                let i = choose|i: int|
                    0 <= i < t.len() && t[i] == BlobEntrySpec::Blob(real_blobs(t)[k]);
                assert(s[i] == BlobEntrySpec::Blob(real_blobs(s)[k]));
            }
        },
        BlobEntrySpec::BlobPrefix(_) => {
            lemma_real_blobs_from_entries(t, k);
            let i = choose|i: int|
                0 <= i < t.len() && t[i] == BlobEntrySpec::Blob(real_blobs(t)[k]);
            assert(s[i] == BlobEntrySpec::Blob(real_blobs(s)[k]));
        },
    }
}

/// Law: the selector never returns a grouping-prefix-derived value — whatever
/// it selects stands in the listing as a real-object entry.
pub proof fn lemma_selector_only_real_objects(s: Seq<BlobEntrySpec>, b: BlobSpec)
    requires
        pick_latest(real_blobs(s)) == Some(b),
    ensures
        exists|i: int| 0 <= i < s.len() && s[i] == BlobEntrySpec::Blob(b),
{
    let blobs = real_blobs(s);
    lemma_pick_latest_some(blobs);
    lemma_pick_latest_is_first_max(blobs);
    let i = choose|i: int| is_first_max(blobs, i) && pick_latest(blobs) == Some(blobs[i]);
    lemma_real_blobs_from_entries(s, i);
}

/// Selects the real object modified most recently; ties go to the entry that
/// appears first in the accumulated listing. An empty selection — no real
/// object under the prefix — is absence, not an error.
pub fn select_latest(entries: &Vec<BlobEntry>) -> (r: Option<Blob>)
    ensures
        r is Some <==> real_blobs(entries.deep_view()).len() > 0,
        r matches Some(b) ==> pick_latest(real_blobs(entries.deep_view())) == Some(b@),
{
    let ghost dv = entries.deep_view();
    let mut best: Option<Blob> = None;
    let mut i: usize = 0;
    while i < entries.len()
        invariant
            0 <= i <= entries.len(),
            dv == entries.deep_view(),
            dv.len() == entries.len(),
            best matches Some(b) ==> pick_latest(real_blobs(dv.take(i as int))) == Some(b@),
            best is Some <==> real_blobs(dv.take(i as int)).len() > 0,
        decreases entries.len() - i,
    {
        proof {
            assert(dv.take(i + 1 as int).drop_last() =~= dv.take(i as int));
            assert(dv.take(i + 1 as int).last() == dv[i as int]);
            assert(dv[i as int] == entries@[i as int]@);
            lemma_pick_latest_some(real_blobs(dv.take(i as int)));
        }
        match &entries[i] {
            BlobEntry::Blob(blob) => {
                proof {
                    let prev = real_blobs(dv.take(i as int));
                    assert(real_blobs(dv.take(i + 1 as int)) == prev.push(blob@));
                    assert(prev.push(blob@).drop_last() =~= prev);
                    assert(prev.push(blob@).last() == blob@);
                }
                match &best {
                    None => {
                        best = Some(blob.duplicate());
                    },
                    Some(b) => {
                        if blob.last_updated > b.last_updated {
                            best = Some(blob.duplicate());
                        }
                    },
                }
            },
            BlobEntry::BlobPrefix(_) => {
                proof {
                    assert(real_blobs(dv.take(i + 1 as int)) == real_blobs(dv.take(i as int)));
                }
            },
        }
        i = i + 1;
    }
    proof {
        assert(dv.take(entries.len() as int) =~= dv);
        lemma_pick_latest_some(real_blobs(dv));
    }
    best
}

} // verus!
