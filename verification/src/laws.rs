//! The laws of the adapter: what versioned lookup and batch
//! application guarantee, stated and proved over the aggregate model.

use vstd::prelude::*;

use crate::state::{
    append_ok, apply_spec, get_spec, hist_apply, hist_get, hist_of, key_covered,
    lemma_hist_apply_dom, lemma_pre_apply_dom, preimages_covered, versions_ok, StateV,
};
use crate::types::{HistoryEntryV, KeyHash};

verus! {

/// Strictly ascending versions, at the model level.
pub open spec fn hist_sorted(s: Seq<(u64, Option<Seq<u8>>)>) -> bool {
    forall|i: int, j: int| 0 <= i < j < s.len() ==> s[i].0 < s[j].0
}

/// A versioned lookup returns the entry with the greatest version at
/// most `max_version`: if entry `i` is visible and every later entry
/// lies in the future, the lookup returns entry `i`'s value.
pub proof fn lemma_lookup_returns_latest(
    entries: Seq<(u64, Option<Seq<u8>>)>,
    max_version: u64,
    i: int,
)
    requires
        0 <= i < entries.len(),
        entries[i].0 <= max_version,
        forall|j: int| i < j < entries.len() ==> entries[j].0 > max_version,
    ensures
        hist_get(entries, max_version) == entries[i].1,
    decreases entries.len(),
{
    if i == entries.len() - 1 {
    } else {
        assert(entries.last().0 > max_version);
        assert(entries.drop_last()[i] == entries[i]);
        lemma_lookup_returns_latest(entries.drop_last(), max_version, i);
    }
}

/// A versioned lookup never reads the future: if every entry's
/// version exceeds `max_version`, the lookup returns absence.
pub proof fn lemma_lookup_no_future(entries: Seq<(u64, Option<Seq<u8>>)>, max_version: u64)
    requires
        forall|j: int| 0 <= j < entries.len() ==> entries[j].0 > max_version,
    ensures
        hist_get(entries, max_version) is None,
    decreases entries.len(),
{
    if entries.len() > 0 {
        lemma_lookup_no_future(entries.drop_last(), max_version);
    }
}

/// The two lookup laws lifted to the aggregate: `get` at
/// `max_version` for a key returns exactly the value of that key's
/// greatest recorded version at most `max_version`, and absence when
/// every recorded version lies in the future or the key is unknown.
pub proof fn lemma_get_spec_latest(s: StateV, max_version: u64, key_hash: KeyHash, i: int)
    requires
        s.history.contains_key(key_hash),
        0 <= i < s.history[key_hash].len(),
        s.history[key_hash][i].0 <= max_version,
        forall|j: int|
            i < j < s.history[key_hash].len() ==> s.history[key_hash][j].0 > max_version,
    ensures
        get_spec(s, max_version, key_hash) == s.history[key_hash][i].1,
{
    lemma_lookup_returns_latest(s.history[key_hash], max_version, i);
}

/// The entries a sequence of appends carries for one key, in order.
pub open spec fn appends_for(appends: Seq<HistoryEntryV>, k: KeyHash) -> Seq<
    (u64, Option<Seq<u8>>),
>
    decreases appends.len(),
{
    if appends.len() == 0 {
        Seq::empty()
    } else {
        let rest = appends_for(appends.drop_last(), k);
        if appends.last().key_hash == k {
            rest.push((appends.last().version, appends.last().value))
        } else {
            rest
        }
    }
}

/// An accepted batch appends exactly its entries: afterwards every
/// key's history is its old history followed, in batch order, by
/// precisely the appends the batch carried for that key — no
/// duplicates, no drops.
pub proof fn lemma_history_appends_exact(
    h: Map<KeyHash, Seq<(u64, Option<Seq<u8>>)>>,
    appends: Seq<HistoryEntryV>,
    k: KeyHash,
)
    ensures
        hist_of(hist_apply(h, appends), k) == hist_of(h, k) + appends_for(appends, k),
    decreases appends.len(),
{
    if appends.len() == 0 {
        assert(hist_of(h, k) + appends_for(appends, k) =~= hist_of(h, k));
    } else {
        lemma_history_appends_exact(h, appends.drop_last(), k);
        let prev = hist_apply(h, appends.drop_last());
        let a = appends.last();
        if a.key_hash == k {
            assert(hist_of(hist_apply(h, appends), k) == hist_of(prev, k).push(
                (a.version, a.value),
            ));
            assert(hist_of(h, k) + appends_for(appends, k) =~= (hist_of(h, k) + appends_for(
                appends.drop_last(),
                k,
            )).push((a.version, a.value)));
        } else {
            assert(hist_of(hist_apply(h, appends), k) == hist_of(prev, k));
        }
    }
}

/// Preimage integrity is preserved: when every key hash in the old
/// history has a recorded preimage and the batch's appends are all
/// covered — by a recorded preimage or by one the batch carries —
/// then after application every key hash in the new history still has
/// a recorded preimage.  An accepted batch can therefore never leave
/// a history entry that cannot be enumerated back to its key.
pub proof fn lemma_preimage_integrity_preserved(s: StateV, b: crate::types::TreeUpdateBatchV)
    requires
        s.history.dom().subset_of(s.preimages.dom()),
        preimages_covered(s.preimages, b),
    ensures
        apply_spec(s, b).history.dom().subset_of(apply_spec(s, b).preimages.dom()),
{
    assert forall|k: KeyHash| apply_spec(s, b).history.dom().contains(k) implies apply_spec(
        s,
        b,
    ).preimages.dom().contains(k) by {
        lemma_hist_apply_dom(s.history, b.history, k);
        lemma_pre_apply_dom(s.preimages, b.preimages, k);
        if s.history.contains_key(k) {
            assert(s.preimages.dom().contains(k));
        } else {
            let i = choose|i: int|
                0 <= i < b.history.len() && (#[trigger] b.history[i]).key_hash == k;
            assert(key_covered(s.preimages, b, k));
        }
    }
}

/// The stale-node index is monotonic-additive: batch application only
/// adds markers, never removes one; removal is an external collector's
/// concern, not this adapter's.
pub proof fn lemma_stale_index_monotonic(s: StateV, b: crate::types::TreeUpdateBatchV)
    ensures
        s.stale.subset_of(apply_spec(s, b).stale),
{
}

/// An admissible sequence of appends keeps every key's history
/// strictly ascending by version.
pub proof fn lemma_apply_keeps_sorted(
    h: Map<KeyHash, Seq<(u64, Option<Seq<u8>>)>>,
    appends: Seq<HistoryEntryV>,
    k: KeyHash,
)
    requires
        versions_ok(h, appends),
        hist_sorted(hist_of(h, k)),
    ensures
        hist_sorted(hist_of(hist_apply(h, appends), k)),
    decreases appends.len(),
{
    if appends.len() > 0 {
        lemma_apply_keeps_sorted(h, appends.drop_last(), k);
        let prev = hist_apply(h, appends.drop_last());
        let a = appends.last();
        if a.key_hash == k {
            assert(append_ok(prev, a));
            let cur = hist_of(prev, k);
            let new = cur.push((a.version, a.value));
            assert forall|i: int, j: int| 0 <= i < j < new.len() implies new[i].0 < new[j].0 by {
                if j == new.len() - 1 {
                    assert(cur.len() > 0);
                    assert(cur[i].0 <= cur.last().0) by {
                        if i < cur.len() - 1 {
                            assert(cur[i].0 < cur[cur.len() - 1].0);
                        }
                    }
                }
            }
        }
    }
}

} // verus!
