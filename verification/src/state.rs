//! The lock-protected aggregate: raw node storage, the stale-node
//! index, the per-key value history and the preimages, together with
//! the versioned read and the atomic batch application over them.

use vstd::prelude::*;

use crate::backend::DiskIter;
use crate::codec::{
    encode_node, encode_node_key, spec_decode_node, spec_decode_node_key, spec_encode_node,
    spec_encode_node_key,
};
use crate::types::{
    clone_bytes, clone_opt_bytes, clone_stale, hist_views, node_key_eq, node_writes_view,
    opt_bytes_view, pre_views, stale_eq, stale_views, DbError, HistoryEntryV, KeyHash, Node,
    NodeKey, NodeKeyV, NodeV, Preimage, StaleNodeIndex, StaleNodeIndexV, TreeUpdateBatch,
    TreeUpdateBatchV,
};

verus! {

/// Mathematical state of the aggregate: the backend's raw pairs, the
/// set of stale node identities, the per-key history (each a sequence
/// of version/value entries) and the preimages.
#[verifier::ext_equal]
pub struct StateV {
    pub db: Map<Seq<u8>, Seq<u8>>,
    pub stale: Set<StaleNodeIndexV>,
    pub history: Map<KeyHash, Seq<(u64, Option<Seq<u8>>)>>,
    pub preimages: Map<KeyHash, Seq<u8>>,
}

/// View of one stored history entry.
pub open spec fn entry_view(e: (u64, Option<Vec<u8>>)) -> (u64, Option<Seq<u8>>) {
    (e.0, opt_bytes_view(e.1))
}

/// View of a stored history list.
pub open spec fn entries_view(s: Seq<(u64, Option<Vec<u8>>)>) -> Seq<(u64, Option<Seq<u8>>)> {
    s.map_values(|e: (u64, Option<Vec<u8>>)| entry_view(e))
}

/// The map a history association list denotes; on duplicate keys the
/// later entry would win, and the adapter keeps keys unique.
pub open spec fn hist_assoc_view(s: Seq<(KeyHash, Vec<(u64, Option<Vec<u8>>)>)>) -> Map<
    KeyHash,
    Seq<(u64, Option<Seq<u8>>)>,
>
    decreases s.len(),
{
    if s.len() == 0 {
        Map::empty()
    } else {
        hist_assoc_view(s.drop_last()).insert(s.last().0, entries_view(s.last().1@))
    }
}

/// The map a preimage association list denotes.
pub open spec fn pre_assoc_view(s: Seq<(KeyHash, Preimage)>) -> Map<KeyHash, Seq<u8>>
    decreases s.len(),
{
    if s.len() == 0 {
        Map::empty()
    } else {
        pre_assoc_view(s.drop_last()).insert(s.last().0, s.last().1@)
    }
}

/// The set of staleness markers a list denotes.
pub open spec fn stale_view_set(s: Seq<StaleNodeIndex>) -> Set<StaleNodeIndexV> {
    Set::new(|v: StaleNodeIndexV| exists|i: int| 0 <= i < s.len() && s[i]@ == v)
}

/// No key hash appears twice.
pub open spec fn keys_distinct<T>(s: Seq<(KeyHash, T)>) -> bool {
    forall|i: int, j: int| 0 <= i < j < s.len() ==> s[i].0 != s[j].0
}

/// Entry versions are strictly ascending.
pub open spec fn entries_sorted(s: Seq<(u64, Option<Vec<u8>>)>) -> bool {
    forall|i: int, j: int| 0 <= i < j < s.len() ==> s[i].0 < s[j].0
}

/// The value visible as of `max_version`: the entry with the greatest
/// version at most `max_version`, found by scanning an ascending list
/// from its end; a stored `None` (a deletion) and a missing entry both
/// read as absence.
pub open spec fn hist_get(entries: Seq<(u64, Option<Seq<u8>>)>, max_version: u64) -> Option<
    Seq<u8>,
>
    decreases entries.len(),
{
    if entries.len() == 0 {
        None
    } else if entries.last().0 <= max_version {
        entries.last().1
    } else {
        hist_get(entries.drop_last(), max_version)
    }
}

/// What a versioned point lookup returns.
pub open spec fn get_spec(s: StateV, max_version: u64, key_hash: KeyHash) -> Option<Seq<u8>> {
    if s.history.contains_key(key_hash) {
        hist_get(s.history[key_hash], max_version)
    } else {
        None
    }
}

/// A batch carrying both a write and a tombstone for one node identity
/// is internally inconsistent.
pub open spec fn batch_malformed(b: TreeUpdateBatchV) -> bool {
    batch_malformed_writes(b.node_writes)
}

/// A key hash has a preimage available: one already recorded in the
/// aggregate, or one the batch itself carries.
pub open spec fn key_covered(pre: Map<KeyHash, Seq<u8>>, b: TreeUpdateBatchV, k: KeyHash) -> bool {
    pre.contains_key(k) || exists|j: int|
        0 <= j < b.preimages.len() && (#[trigger] b.preimages[j]).0 == k
}

/// Every key hash the batch appends history for has a preimage
/// available.  A key hash is one-way, so a history entry without a
/// preimage could never be enumerated back to its key: such a batch is
/// rejected before any mutation.
pub open spec fn preimages_covered(pre: Map<KeyHash, Seq<u8>>, b: TreeUpdateBatchV) -> bool {
    forall|i: int|
        0 <= i < b.history.len() ==> key_covered(pre, b, (#[trigger] b.history[i]).key_hash)
}

/// The history a key has in `h`, empty if the key is unknown.
pub open spec fn hist_of(h: Map<KeyHash, Seq<(u64, Option<Seq<u8>>)>>, k: KeyHash) -> Seq<
    (u64, Option<Seq<u8>>),
> {
    if h.contains_key(k) {
        h[k]
    } else {
        Seq::empty()
    }
}

/// One append is admissible when its version is strictly greater than
/// the last version recorded for its key.
pub open spec fn append_ok(h: Map<KeyHash, Seq<(u64, Option<Seq<u8>>)>>, a: HistoryEntryV) -> bool {
    hist_of(h, a.key_hash).len() > 0 ==> a.version > hist_of(h, a.key_hash).last().0
}

/// The history map after a sequence of appends, each added at the end
/// of its key's list, in batch order.
pub open spec fn hist_apply(
    h: Map<KeyHash, Seq<(u64, Option<Seq<u8>>)>>,
    appends: Seq<HistoryEntryV>,
) -> Map<KeyHash, Seq<(u64, Option<Seq<u8>>)>>
    decreases appends.len(),
{
    if appends.len() == 0 {
        h
    } else {
        let prev = hist_apply(h, appends.drop_last());
        let a = appends.last();
        prev.insert(a.key_hash, hist_of(prev, a.key_hash).push((a.version, a.value)))
    }
}

/// Every append of the sequence is admissible at its turn.
pub open spec fn versions_ok(
    h: Map<KeyHash, Seq<(u64, Option<Seq<u8>>)>>,
    appends: Seq<HistoryEntryV>,
) -> bool
    decreases appends.len(),
{
    if appends.len() == 0 {
        true
    } else {
        versions_ok(h, appends.drop_last()) && append_ok(
            hist_apply(h, appends.drop_last()),
            appends.last(),
        )
    }
}

/// The raw store after a sequence of node writes and tombstones, in
/// batch order.
pub open spec fn db_apply(
    db: Map<Seq<u8>, Seq<u8>>,
    writes: Seq<(NodeKeyV, Option<NodeV>)>,
) -> Map<Seq<u8>, Seq<u8>>
    decreases writes.len(),
{
    if writes.len() == 0 {
        db
    } else {
        let prev = db_apply(db, writes.drop_last());
        let w = writes.last();
        match w.1 {
            Some(n) => prev.insert(spec_encode_node_key(w.0), spec_encode_node(n)),
            None => prev.remove(spec_encode_node_key(w.0)),
        }
    }
}

/// The preimage map after a sequence of recordings, in batch order.
pub open spec fn pre_apply(
    p: Map<KeyHash, Seq<u8>>,
    pres: Seq<(KeyHash, Seq<u8>)>,
) -> Map<KeyHash, Seq<u8>>
    decreases pres.len(),
{
    if pres.len() == 0 {
        p
    } else {
        pre_apply(p, pres.drop_last()).insert(pres.last().0, pres.last().1)
    }
}

/// The aggregate after one accepted batch: nodes written and
/// tombstoned in the backend, new staleness markers merged into the
/// index, history entries appended, preimages recorded.
pub open spec fn apply_spec(s: StateV, b: TreeUpdateBatchV) -> StateV {
    StateV {
        db: db_apply(s.db, b.node_writes),
        stale: s.stale.union(b.stale_nodes.to_set()),
        history: hist_apply(s.history, b.history),
        preimages: pre_apply(s.preimages, b.preimages),
    }
}

/// The node records a raw store holds: every raw pair whose key bytes
/// decode as a node identity and whose value bytes decode as a node.
pub open spec fn nodes_of(db: Map<Seq<u8>, Seq<u8>>) -> Map<NodeKeyV, NodeV> {
    Map::new(
        |nk: NodeKeyV|
            db.contains_key(spec_encode_node_key(nk)) && spec_decode_node(
                db[spec_encode_node_key(nk)],
            ) is Some,
        |nk: NodeKeyV| spec_decode_node(db[spec_encode_node_key(nk)])->Some_0,
    )
}

/// A node enumeration is exact: no identity twice, every returned pair
/// a node record of the store, and every node record returned.
pub open spec fn nodes_result_ok(rs: Seq<(NodeKey, Node)>, db: Map<Seq<u8>, Seq<u8>>) -> bool {
    &&& forall|i: int, j: int| 0 <= i < j < rs.len() ==> rs[i].0@ != rs[j].0@
    &&& forall|i: int|
        0 <= i < rs.len() ==> nodes_of(db).contains_key(#[trigger] rs[i].0@) && nodes_of(db)[rs[i].0@]
            == rs[i].1@
    &&& forall|nk: NodeKeyV|
        #[trigger] nodes_of(db).contains_key(nk) ==> exists|i: int|
            0 <= i < rs.len() && #[trigger] rs[i].0@ == nk
}

/// The passive record keeping the four data structures; every access
/// goes through the adapter facade's lock.
#[derive(Clone, Debug, Default)]
pub struct DbInner<D: DiskIter> {
    pub db: D,
    pub stale_nodes: Vec<StaleNodeIndex>,
    pub value_history: Vec<(KeyHash, Vec<(u64, Option<Vec<u8>>)>)>,
    pub preimages: Vec<(KeyHash, Preimage)>,
}

impl<D: DiskIter> DbInner<D> {
    /// Well-formedness: unique keys in both association lists, each
    /// history strictly ascending by version, no staleness marker
    /// twice, and every key hash with a history has a recorded
    /// preimage.
    pub open spec fn wf(self) -> bool {
        &&& keys_distinct(self.value_history@)
        &&& forall|i: int|
            0 <= i < self.value_history@.len() ==> entries_sorted(
                #[trigger] self.value_history@[i].1@,
            )
        &&& keys_distinct(self.preimages@)
        &&& forall|i: int, j: int|
            0 <= i < j < self.stale_nodes@.len() ==> self.stale_nodes@[i]@ != self.stale_nodes@[j]@
        &&& hist_assoc_view(self.value_history@).dom().subset_of(
            pre_assoc_view(self.preimages@).dom(),
        )
    }

    /// The aggregate this record denotes.
    pub open spec fn model(self) -> StateV {
        StateV {
            db: self.db.contents(),
            stale: stale_view_set(self.stale_nodes@),
            history: hist_assoc_view(self.value_history@),
            preimages: pre_assoc_view(self.preimages@),
        }
    }

    /// A fresh aggregate over a backend: no history, no staleness
    /// markers, no preimages.  The backend may already hold raw
    /// records, foreign ones included.
    pub fn new(db: D) -> (r: Self)
        ensures
            r.wf(),
            r.model().db == db.contents(),
            r.model().stale =~= Set::<StaleNodeIndexV>::empty(),
            r.model().history =~= Map::<KeyHash, Seq<(u64, Option<Seq<u8>>)>>::empty(),
            r.model().preimages =~= Map::<KeyHash, Seq<u8>>::empty(),
    {
        DbInner {
            db,
            stale_nodes: Vec::new(),
            value_history: Vec::new(),
            preimages: Vec::new(),
        }
    }

    /// Versioned point lookup: the value from the history entry for
    /// `key_hash` with the greatest version at most `max_version`, or
    /// absence if there is none or that entry is a deletion marker.
    pub fn get(&self, max_version: u64, key_hash: KeyHash) -> (r: Option<Vec<u8>>)
        requires
            self.wf(),
        ensures
            opt_bytes_view(r) == get_spec(self.model(), max_version, key_hash),
    {
        let n = self.value_history.len();
        let mut i: usize = 0;
        while i < n
            invariant
                self.wf(),
                n == self.value_history@.len(),
                i <= n,
                forall|j: int| 0 <= j < i ==> self.value_history@[j].0 != key_hash,
            decreases n - i,
        {
            if self.value_history[i].0 == key_hash {
                let entries = &self.value_history[i].1;
                proof {
                    lemma_hist_assoc_lookup(self.value_history@, key_hash);
                    assert(self.value_history@[i as int].0 == key_hash);
                    assert(self.model().history.contains_key(key_hash));
                    assert(self.model().history[key_hash] == entries_view(
                        self.value_history@[i as int].1@,
                    ));
                }
                let ghost ev = entries_view(entries@);
                let mut j: usize = entries.len();
                proof {
                    assert(ev.subrange(0, j as int) =~= ev);
                }
                while j > 0
                    invariant
                        j <= entries@.len(),
                        ev == entries_view(entries@),
                        get_spec(self.model(), max_version, key_hash) == hist_get(
                            ev,
                            max_version,
                        ),
                        hist_get(ev, max_version) == hist_get(
                            ev.subrange(0, j as int),
                            max_version,
                        ),
                    decreases j,
                {
                    let e = &entries[j - 1];
                    proof {
                        assert(ev.subrange(0, j as int).last() == ev[j - 1]);
                        assert(ev.subrange(0, j as int).drop_last() =~= ev.subrange(
                            0,
                            j - 1,
                        ));
                        assert(ev[j - 1] == entry_view(entries@[j - 1]));
                    }
                    if e.0 <= max_version {
                        let r = clone_opt_bytes(&e.1);
                        proof {
                            assert(hist_get(ev, max_version) == ev[j - 1].1);
                        }
                        return r;
                    }
                    j = j - 1;
                }
                proof {
                    assert(ev.subrange(0, 0) =~= Seq::<(u64, Option<Seq<u8>>)>::empty());
                }
                return None;
            }
            i = i + 1;
        }
        proof {
            lemma_hist_assoc_lookup(self.value_history@, key_hash);
            assert(!self.model().history.contains_key(key_hash));
        }
        None
    }
}

impl<D: DiskIter> DbInner<D> {
    /// Applies one logically atomic batch.  The whole batch is checked
    /// first and either takes effect as one transition or is rejected
    /// with the aggregate left exactly as it was.
    pub fn update_batch(&mut self, batch: &TreeUpdateBatch) -> (r: Result<(), DbError>)
        requires
            old(self).wf(),
        ensures
            final(self).wf(),
            r is Err ==> *final(self) == *old(self),
            r == Err::<(), DbError>(DbError::MalformedBatch) <==> batch_malformed(batch@),
            r == Err::<(), DbError>(DbError::MissingPreimage) <==> !batch_malformed(batch@)
                && !preimages_covered(old(self).model().preimages, batch@),
            r is Ok <==> !batch_malformed(batch@) && preimages_covered(
                old(self).model().preimages,
                batch@,
            ) && versions_ok(old(self).model().history, batch@.history),
            r is Ok ==> final(self).model() == apply_spec(old(self).model(), batch@),
    {
        if check_conflicting(&batch.node_writes) {
            return Err(DbError::MalformedBatch);
        }
        if !check_preimages(&self.preimages, batch) {
            return Err(DbError::MissingPreimage);
        }
        let staged = stage_history(&self.value_history, &batch.history);
        match staged {
            Err(e) => Err(e),
            Ok(nh) => {
                self.value_history = nh;
                self.apply_node_writes(&batch.node_writes);
                self.merge_stale(&batch.stale_nodes);
                self.record_preimages(&batch.preimages);
                proof {
                    let h0 = old(self).model().history;
                    let p0 = old(self).model().preimages;
                    assert forall|k: KeyHash|
                        hist_assoc_view(self.value_history@).contains_key(
                            k,
                        ) implies pre_assoc_view(self.preimages@).contains_key(k) by {
                        lemma_hist_apply_dom(h0, batch@.history, k);
                        lemma_pre_apply_dom(p0, batch@.preimages, k);
                        if h0.contains_key(k) {
                            assert(p0.contains_key(k));
                        } else {
                            let i = choose|i: int|
                                0 <= i < batch@.history.len() && (#[trigger] batch@.history[i]).key_hash
                                    == k;
                            assert(key_covered(p0, batch@, k));
                        }
                    }
                    assert(final(self).model() =~= apply_spec(old(self).model(), batch@));
                }
                Ok(())
            },
        }
    }

    /// Writes and tombstones the batch's raw node records in the
    /// backend, touching nothing else.
    fn apply_node_writes(&mut self, writes: &Vec<(NodeKey, Option<Node>)>)
        ensures
            final(self).db.contents() == db_apply(
                old(self).db.contents(),
                node_writes_view(writes@),
            ),
            final(self).stale_nodes@ == old(self).stale_nodes@,
            final(self).value_history@ == old(self).value_history@,
            final(self).preimages@ == old(self).preimages@,
    {
        let ghost ws = node_writes_view(writes@);
        let n = writes.len();
        let mut i: usize = 0;
        proof {
            assert(ws.subrange(0, 0) =~= Seq::<(NodeKeyV, Option<NodeV>)>::empty());
        }
        while i < n
            invariant
                n == writes@.len(),
                i <= n,
                ws == node_writes_view(writes@),
                self.db.contents() == db_apply(old(self).db.contents(), ws.subrange(0, i as int)),
                self.stale_nodes@ == old(self).stale_nodes@,
                self.value_history@ == old(self).value_history@,
                self.preimages@ == old(self).preimages@,
            decreases n - i,
        {
            let w = &writes[i];
            let raw_key = encode_node_key(&w.0);
            proof {
                assert(ws.subrange(0, i + 1).drop_last() =~= ws.subrange(0, i as int));
                assert(ws.subrange(0, i + 1).last() == ws[i as int]);
            }
            match &w.1 {
                Some(node) => {
                    let raw_val = encode_node(node);
                    self.db.put(raw_key, raw_val);
                },
                None => {
                    self.db.delete(&raw_key);
                },
            }
            i = i + 1;
        }
        proof {
            assert(ws.subrange(0, n as int) =~= ws);
        }
    }

    /// Merges the batch's staleness markers into the index, keeping
    /// each marker at most once and touching nothing else.
    fn merge_stale(&mut self, stale: &Vec<StaleNodeIndex>)
        requires
            forall|i: int, j: int|
                0 <= i < j < old(self).stale_nodes@.len() ==> old(self).stale_nodes@[i]@ != old(
                    self,
                ).stale_nodes@[j]@,
        ensures
            forall|i: int, j: int|
                0 <= i < j < final(self).stale_nodes@.len() ==> final(self).stale_nodes@[i]@
                    != final(self).stale_nodes@[j]@,
            stale_view_set(final(self).stale_nodes@) == stale_view_set(
                old(self).stale_nodes@,
            ).union(stale_views(stale@).to_set()),
            final(self).db == old(self).db,
            final(self).value_history@ == old(self).value_history@,
            final(self).preimages@ == old(self).preimages@,
    {
        let ghost sv = stale_views(stale@);
        let n = stale.len();
        let mut i: usize = 0;
        while i < n
            invariant
                n == stale@.len(),
                i <= n,
                sv == stale_views(stale@),
                forall|a: int, b: int|
                    0 <= a < b < self.stale_nodes@.len() ==> self.stale_nodes@[a]@
                        != self.stale_nodes@[b]@,
                forall|y: StaleNodeIndexV|
                    #![trigger stale_view_set(self.stale_nodes@).contains(y)]
                    stale_view_set(self.stale_nodes@).contains(y) <==> (stale_view_set(
                        old(self).stale_nodes@,
                    ).contains(y) || exists|t: int| 0 <= t < i && sv[t] == y),
                self.db == old(self).db,
                self.value_history@ == old(self).value_history@,
                self.preimages@ == old(self).preimages@,
            decreases n - i,
        {
            let x = &stale[i];
            let ghost before_seq = self.stale_nodes@;
            let present = stale_contains(&self.stale_nodes, x);
            if !present {
                self.stale_nodes.push(clone_stale(x));
            }
            proof {
                assert(sv[i as int] == x@);
                if present {
                    assert(self.stale_nodes@ == before_seq);
                    assert(stale_view_set(before_seq).contains(x@));
                    assert forall|y: StaleNodeIndexV|
                        stale_view_set(self.stale_nodes@).contains(y) <==> (stale_view_set(
                            old(self).stale_nodes@,
                        ).contains(y) || exists|t: int| 0 <= t < i + 1 && sv[t] == y) by {
                        if exists|t: int| 0 <= t < i + 1 && sv[t] == y {
                            let t = choose|t: int| 0 <= t < i + 1 && sv[t] == y;
                            if t == i {
                                assert(stale_view_set(self.stale_nodes@).contains(y));
                            }
                        }
                    }
                } else {
                    assert(self.stale_nodes@.drop_last() =~= before_seq);
                    assert(self.stale_nodes@.last()@ == x@);
                    assert forall|y: StaleNodeIndexV|
                        stale_view_set(self.stale_nodes@).contains(y) <==> (stale_view_set(
                            old(self).stale_nodes@,
                        ).contains(y) || exists|t: int| 0 <= t < i + 1 && sv[t] == y) by {
                        if stale_view_set(self.stale_nodes@).contains(y) {
                            let t = choose|t: int|
                                0 <= t < self.stale_nodes@.len() && (#[trigger] self.stale_nodes@[t])@
                                    == y;
                            if t < before_seq.len() {
                                assert(before_seq[t]@ == y);
                                assert(stale_view_set(before_seq).contains(y));
                            } else {
                                assert(y == x@ && sv[i as int] == y);
                            }
                        }
                        if stale_view_set(before_seq).contains(y) {
                            let t = choose|t: int|
                                0 <= t < before_seq.len() && (#[trigger] before_seq[t])@ == y;
                            assert(self.stale_nodes@[t]@ == y);
                            assert(stale_view_set(self.stale_nodes@).contains(y));
                        }
                        if exists|t: int| 0 <= t < i + 1 && sv[t] == y {
                            let t = choose|t: int| 0 <= t < i + 1 && sv[t] == y;
                            if t == i {
                                assert(self.stale_nodes@[self.stale_nodes@.len() - 1]@ == y);
                                assert(stale_view_set(self.stale_nodes@).contains(y));
                            }
                        }
                    }
                    assert forall|a: int, b: int|
                        0 <= a < b < self.stale_nodes@.len() implies self.stale_nodes@[a]@
                            != self.stale_nodes@[b]@ by {
                        if b < before_seq.len() {
                            assert(before_seq[a]@ != before_seq[b]@);
                        } else {
                            assert(self.stale_nodes@[b]@ == x@);
                            assert(!stale_view_set(before_seq).contains(x@));
                            assert(before_seq[a]@ != x@);
                        }
                    }
                }
            }
            i = i + 1;
        }
        proof {
            assert forall|y: StaleNodeIndexV|
                stale_view_set(self.stale_nodes@).contains(y) <==> stale_view_set(
                    old(self).stale_nodes@,
                ).union(stale_views(stale@).to_set()).contains(y) by {
                if stale_views(stale@).to_set().contains(y) {
                    let t = choose|t: int|
                        0 <= t < stale_views(stale@).len() && (#[trigger] stale_views(stale@)[t])
                            == y;
                    assert(sv[t] == y);
                }
            }
            assert(stale_view_set(self.stale_nodes@) =~= stale_view_set(
                old(self).stale_nodes@,
            ).union(stale_views(stale@).to_set()));
        }
    }

    /// Records the batch's preimages, replacing any previous preimage
    /// of the same key hash and touching nothing else.
    fn record_preimages(&mut self, pres: &Vec<(KeyHash, Preimage)>)
        requires
            keys_distinct(old(self).preimages@),
        ensures
            keys_distinct(final(self).preimages@),
            pre_assoc_view(final(self).preimages@) == pre_apply(
                pre_assoc_view(old(self).preimages@),
                pre_views(pres@),
            ),
            final(self).db == old(self).db,
            final(self).value_history@ == old(self).value_history@,
            final(self).stale_nodes@ == old(self).stale_nodes@,
    {
        let ghost pv = pre_views(pres@);
        let n = pres.len();
        let mut i: usize = 0;
        proof {
            assert(pv.subrange(0, 0) =~= Seq::<(KeyHash, Seq<u8>)>::empty());
        }
        while i < n
            invariant
                n == pres@.len(),
                i <= n,
                pv == pre_views(pres@),
                keys_distinct(self.preimages@),
                pre_assoc_view(self.preimages@) == pre_apply(
                    pre_assoc_view(old(self).preimages@),
                    pv.subrange(0, i as int),
                ),
                self.db == old(self).db,
                self.value_history@ == old(self).value_history@,
                self.stale_nodes@ == old(self).stale_nodes@,
            decreases n - i,
        {
            let p = &pres[i];
            let copied = Preimage(clone_bytes(&p.1.0));
            proof {
                assert(pv.subrange(0, i + 1).drop_last() =~= pv.subrange(0, i as int));
                assert(pv.subrange(0, i + 1).last() == pv[i as int]);
                lemma_pre_assoc_lookup(self.preimages@, p.0);
            }
            let pos = find_pre_key(&self.preimages, p.0);
            match pos {
                Some(ix) => {
                    let ghost before = self.preimages@;
                    let _ = self.preimages.remove(ix);
                    self.preimages.insert(ix, (p.0, copied));
                    proof {
                        assert(self.preimages@ =~= before.update(ix as int, (p.0, copied)));
                        assert(before[ix as int].0 == p.0);
                        lemma_pre_assoc_update(before, ix as int, (p.0, copied));
                        assert forall|a: int, b: int|
                            0 <= a < b < self.preimages@.len() implies self.preimages@[a].0
                                != self.preimages@[b].0 by {
                            assert(self.preimages@[a].0 == before[a].0);
                            assert(self.preimages@[b].0 == before[b].0);
                            assert(before[a].0 != before[b].0);
                        }
                    }
                },
                None => {
                    let ghost before = self.preimages@;
                    self.preimages.push((p.0, copied));
                    proof {
                        assert(self.preimages@.drop_last() =~= before);
                        assert(self.preimages@.last() == (p.0, copied));
                        assert forall|a: int, b: int|
                            0 <= a < b < self.preimages@.len() implies self.preimages@[a].0
                                != self.preimages@[b].0 by {
                            if b < before.len() {
                                assert(before[a].0 != before[b].0);
                            } else {
                                assert(before[a].0 != p.0);
                            }
                        }
                    }
                },
            }
            proof {
                assert(pre_assoc_view(self.preimages@) =~= pre_apply(
                    pre_assoc_view(old(self).preimages@),
                    pv.subrange(0, i + 1),
                ));
            }
            i = i + 1;
        }
        proof {
            assert(pv.subrange(0, n as int) =~= pv);
        }
    }
}

/// Full decoding of one raw pair: the node identity it names, if both
/// its key and its value decode.
pub open spec fn pair_node_key(p: (Vec<u8>, Vec<u8>)) -> Option<NodeKeyV> {
    match spec_decode_node_key(p.0@) {
        Some(nk) => if spec_decode_node(p.1@) is Some {
            Some(nk)
        } else {
            None
        },
        None => None,
    }
}

impl<D: DiskIter> DbInner<D> {
    /// Enumerates the node records: every raw pair of the backend that
    /// decodes as a node identity and a node, each exactly once, with
    /// everything else silently skipped.  A materialized snapshot, not
    /// a live view.
    pub fn nodes(&self) -> (r: Vec<(NodeKey, Node)>)
        ensures
            nodes_result_ok(r@, self.model().db),
    {
        let pairs = self.db.iter();
        let ghost db = self.db.contents();
        let mut out: Vec<(NodeKey, Node)> = Vec::new();
        let n = pairs.len();
        let mut i: usize = 0;
        while i < n
            invariant
                n == pairs@.len(),
                i <= n,
                db == self.db.contents(),
                forall|a: int, b: int| 0 <= a < b < pairs@.len() ==> pairs@[a].0@ != pairs@[b].0@,
                forall|a: int|
                    0 <= a < pairs@.len() ==> db.contains_key(#[trigger] pairs@[a].0@)
                        && db[pairs@[a].0@] == pairs@[a].1@,
                forall|t: int, u: int| 0 <= t < u < out@.len() ==> out@[t].0@ != out@[u].0@,
                forall|t: int|
                    0 <= t < out@.len() ==> nodes_of(db).contains_key(#[trigger] out@[t].0@)
                        && nodes_of(db)[out@[t].0@] == out@[t].1@,
                forall|t: int|
                    #![trigger out@[t].0@]
                    0 <= t < out@.len() ==> exists|a: int|
                        0 <= a < i && #[trigger] pairs@[a].0@ == spec_encode_node_key(out@[t].0@),
                forall|a: int|
                    0 <= a < i && #[trigger] pair_node_key(pairs@[a]) is Some ==> exists|t: int|
                        0 <= t < out@.len() && #[trigger] out@[t].0@ == pair_node_key(
                            pairs@[a],
                        )->Some_0,
            decreases n - i,
        {
            let raw = &pairs[i];
            let decoded_key = crate::codec::decode_node_key(&raw.0);
            match decoded_key {
                Some(nk) => {
                    let decoded_val = crate::codec::decode_node(&raw.1);
                    match decoded_val {
                        Some(node) => {
                            proof {
                                crate::codec::lemma_node_key_canonical(raw.0@);
                                assert(spec_encode_node_key(nk@) == raw.0@);
                                assert(nodes_of(db).contains_key(nk@));
                                assert(nodes_of(db)[nk@] == node@);
                                assert forall|t: int| 0 <= t < out@.len() implies out@[t].0@
                                    != nk@ by {
                                    let a = choose|a: int|
                                        0 <= a < i && #[trigger] pairs@[a].0@
                                            == spec_encode_node_key(out@[t].0@);
                                    if out@[t].0@ == nk@ {
                                        assert(pairs@[a].0@ == pairs@[i as int].0@);
                                    }
                                }
                            }
                            let ghost out_before = out@;
                            out.push((nk, node));
                            proof {
                                assert(out@.last().0@ == nk@);
                                assert(pair_node_key(pairs@[i as int]) == Some(nk@));
                                assert(pairs@[i as int].0@ == spec_encode_node_key(
                                    out@[out@.len() - 1].0@,
                                ));
                                assert forall|a: int|
                                    0 <= a < i + 1 && #[trigger] pair_node_key(
                                        pairs@[a],
                                    ) is Some implies exists|t: int|
                                    0 <= t < out@.len() && #[trigger] out@[t].0@ == pair_node_key(
                                        pairs@[a],
                                    )->Some_0 by {
                                    if a < i {
                                        let t = choose|t: int|
                                            0 <= t < out_before.len() && (#[trigger] out_before[t].0@)
                                                == pair_node_key(pairs@[a])->Some_0;
                                        assert(out@[t].0@ == pair_node_key(pairs@[a])->Some_0);
                                    } else {
                                        assert(out@[out@.len() - 1].0@ == pair_node_key(
                                            pairs@[a],
                                        )->Some_0);
                                    }
                                }
                            }
                        },
                        None => {
                            proof {
                                assert(pair_node_key(pairs@[i as int]) is None);
                            }
                        },
                    }
                },
                None => {
                    proof {
                        assert(pair_node_key(pairs@[i as int]) is None);
                    }
                },
            }
            i = i + 1;
        }
        proof {
            assert forall|nk: NodeKeyV| #[trigger]
                nodes_of(db).contains_key(nk) implies exists|t: int|
                0 <= t < out@.len() && #[trigger] out@[t].0@ == nk by {
                crate::codec::lemma_node_key_roundtrip(nk);
                let enc = spec_encode_node_key(nk);
                assert(db.contains_key(enc));
                let a = choose|a: int| 0 <= a < pairs@.len() && (#[trigger] pairs@[a].0@) == enc;
                assert(pairs@[a].1@ == db[enc]);
                assert(pair_node_key(pairs@[a]) == Some(nk));
            }
        }
        out
    }

    /// A snapshot copy of the full value history, one list per key
    /// hash, each strictly ascending by version.  A materialized
    /// snapshot, not a live view.
    pub fn value_history(&self) -> (r: Vec<(KeyHash, Vec<(u64, Option<Vec<u8>>)>)>)
        requires
            self.wf(),
        ensures
            hist_assoc_view(r@) == self.model().history,
            keys_distinct(r@),
            forall|i: int| 0 <= i < r@.len() ==> entries_sorted(#[trigger] r@[i].1@),
    {
        clone_hist(&self.value_history)
    }
}

/// Reports whether some node identity appears both with a write and
/// with a tombstone.
fn check_conflicting(writes: &Vec<(NodeKey, Option<Node>)>) -> (r: bool)
    ensures
        r <==> batch_malformed_writes(node_writes_view(writes@)),
{
    let ghost ws = node_writes_view(writes@);
    let n = writes.len();
    let mut i: usize = 0;
    while i < n
        invariant
            n == writes@.len(),
            ws == node_writes_view(writes@),
            i <= n,
            forall|a: int, b: int|
                0 <= a < i && 0 <= b < n ==> !(ws[a].0 == ws[b].0 && ws[a].1 is Some
                    && ws[b].1 is None),
        decreases n - i,
    {
        if writes[i].1.is_some() {
            let mut j: usize = 0;
            while j < n
                invariant
                    n == writes@.len(),
                    ws == node_writes_view(writes@),
                    i < n,
                    j <= n,
                    ws[i as int].1 is Some,
                    forall|b: int| 0 <= b < j ==> !(ws[i as int].0 == ws[b].0 && ws[b].1 is None),
                decreases n - j,
            {
                if writes[j].1.is_none() && node_key_eq(&writes[i].0, &writes[j].0) {
                    proof {
                        assert(ws[i as int].0 == ws[j as int].0 && ws[i as int].1 is Some
                            && ws[j as int].1 is None);
                    }
                    return true;
                }
                j = j + 1;
            }
        }
        i = i + 1;
    }
    false
}

/// A conflicting write/tombstone pair among the node writes.
pub open spec fn batch_malformed_writes(ws: Seq<(NodeKeyV, Option<NodeV>)>) -> bool {
    exists|i: int, j: int|
        0 <= i < ws.len() && 0 <= j < ws.len() && ws[i].0 == ws[j].0 && ws[i].1 is Some
            && ws[j].1 is None
}

/// Reports whether every key hash the batch appends history for has a
/// preimage, recorded or carried by the batch.
fn check_preimages(pre: &Vec<(KeyHash, Preimage)>, batch: &TreeUpdateBatch) -> (r: bool)
    requires
        keys_distinct(pre@),
    ensures
        r <==> preimages_covered(pre_assoc_view(pre@), batch@),
{
    let n = batch.history.len();
    let mut i: usize = 0;
    while i < n
        invariant
            n == batch.history@.len(),
            i <= n,
            keys_distinct(pre@),
            forall|t: int|
                0 <= t < i ==> key_covered(
                    pre_assoc_view(pre@),
                    batch@,
                    (#[trigger] batch@.history[t]).key_hash,
                ),
        decreases n - i,
    {
        let k = batch.history[i].key_hash;
        proof {
            lemma_pre_assoc_lookup(pre@, k);
            assert(batch@.history[i as int].key_hash == k);
        }
        match find_pre_key(pre, k) {
            Some(_) => {
                proof {
                    assert(pre_assoc_view(pre@).contains_key(k));
                }
            },
            None => {
                match find_pre_key(&batch.preimages, k) {
                    Some(ix) => {
                        proof {
                            assert(batch@.preimages[ix as int].0 == k);
                        }
                    },
                    None => {
                        proof {
                            assert(!pre_assoc_view(pre@).contains_key(k));
                            assert(!key_covered(pre_assoc_view(pre@), batch@, k)) by {
                                if exists|j: int|
                                    0 <= j < batch@.preimages.len() && (#[trigger] batch@.preimages[j]).0
                                        == k {
                                    let j = choose|j: int|
                                        0 <= j < batch@.preimages.len()
                                            && (#[trigger] batch@.preimages[j]).0 == k;
                                    assert(batch.preimages@[j].0 == k);
                                }
                            }
                        }
                        return false;
                    },
                }
            },
        }
        i = i + 1;
    }
    true
}

/// The keys of a history map after appends: the old keys and the keys
/// the appends touch, nothing else.
pub proof fn lemma_hist_apply_dom(
    h: Map<KeyHash, Seq<(u64, Option<Seq<u8>>)>>,
    appends: Seq<HistoryEntryV>,
    k: KeyHash,
)
    ensures
        hist_apply(h, appends).contains_key(k) <==> (h.contains_key(k) || exists|i: int|
            0 <= i < appends.len() && (#[trigger] appends[i]).key_hash == k),
    decreases appends.len(),
{
    if appends.len() > 0 {
        lemma_hist_apply_dom(h, appends.drop_last(), k);
        let a = appends.last();
        if a.key_hash == k {
            assert(appends[appends.len() - 1].key_hash == k);
        } else {
            if exists|i: int| 0 <= i < appends.len() && (#[trigger] appends[i]).key_hash == k {
                let i = choose|i: int|
                    0 <= i < appends.len() && (#[trigger] appends[i]).key_hash == k;
                assert(appends.drop_last()[i].key_hash == k);
            }
            if exists|i: int|
                0 <= i < appends.drop_last().len() && (#[trigger] appends.drop_last()[i]).key_hash
                    == k {
                let i = choose|i: int|
                    0 <= i < appends.drop_last().len()
                        && (#[trigger] appends.drop_last()[i]).key_hash == k;
                assert(appends[i].key_hash == k);
            }
        }
    }
}

/// The keys of a preimage map after recordings: the old keys and the
/// recorded keys, nothing else.
pub proof fn lemma_pre_apply_dom(
    p: Map<KeyHash, Seq<u8>>,
    pres: Seq<(KeyHash, Seq<u8>)>,
    k: KeyHash,
)
    ensures
        pre_apply(p, pres).contains_key(k) <==> (p.contains_key(k) || exists|j: int|
            0 <= j < pres.len() && (#[trigger] pres[j]).0 == k),
    decreases pres.len(),
{
    if pres.len() > 0 {
        lemma_pre_apply_dom(p, pres.drop_last(), k);
        if pres.last().0 == k {
            assert(pres[pres.len() - 1].0 == k);
        } else {
            if exists|j: int| 0 <= j < pres.len() && (#[trigger] pres[j]).0 == k {
                let j = choose|j: int| 0 <= j < pres.len() && (#[trigger] pres[j]).0 == k;
                assert(pres.drop_last()[j].0 == k);
            }
            if exists|j: int| 0 <= j < pres.drop_last().len() && (#[trigger] pres.drop_last()[j]).0
                == k {
                let j = choose|j: int|
                    0 <= j < pres.drop_last().len() && (#[trigger] pres.drop_last()[j]).0 == k;
                assert(pres[j].0 == k);
            }
        }
    }
}

/// Builds the history the aggregate would hold after the appends, or
/// reports the first append whose version does not increase.  The
/// given list is not changed.
fn stage_history(
    vh: &Vec<(KeyHash, Vec<(u64, Option<Vec<u8>>)>)>,
    appends: &Vec<crate::types::HistoryEntry>,
) -> (r: Result<Vec<(KeyHash, Vec<(u64, Option<Vec<u8>>)>)>, DbError>)
    requires
        keys_distinct(vh@),
        forall|i: int| 0 <= i < vh@.len() ==> entries_sorted(#[trigger] vh@[i].1@),
    ensures
        match r {
            Ok(nh) => {
                &&& versions_ok(hist_assoc_view(vh@), hist_views(appends@))
                &&& hist_assoc_view(nh@) == hist_apply(
                    hist_assoc_view(vh@),
                    hist_views(appends@),
                )
                &&& keys_distinct(nh@)
                &&& forall|i: int| 0 <= i < nh@.len() ==> entries_sorted(#[trigger] nh@[i].1@)
            },
            Err(e) => e == DbError::VersionNotIncreasing && !versions_ok(
                hist_assoc_view(vh@),
                hist_views(appends@),
            ),
        },
{
    let ghost h0 = hist_assoc_view(vh@);
    let ghost av = hist_views(appends@);
    let mut nh = clone_hist(vh);
    proof {
        assert(av.subrange(0, 0) =~= Seq::<HistoryEntryV>::empty());
    }
    let n = appends.len();
    let mut i: usize = 0;
    while i < n
        invariant
            n == appends@.len(),
            av == hist_views(appends@),
            h0 == hist_assoc_view(vh@),
            i <= n,
            versions_ok(h0, av.subrange(0, i as int)),
            hist_assoc_view(nh@) == hist_apply(h0, av.subrange(0, i as int)),
            keys_distinct(nh@),
            forall|t: int| 0 <= t < nh@.len() ==> entries_sorted(#[trigger] nh@[t].1@),
        decreases n - i,
    {
        let a = &appends[i];
        let ghost hv = hist_assoc_view(nh@);
        proof {
            assert(av.subrange(0, i + 1).drop_last() =~= av.subrange(0, i as int));
            assert(av.subrange(0, i + 1).last() == av[i as int]);
            assert(av[i as int] == appends@[i as int]@);
            lemma_hist_assoc_lookup(nh@, a.key_hash);
        }
        let pos = find_hist_key(&nh, a.key_hash);
        match pos {
            Some(ix) => {
                let elen = nh[ix].1.len();
                proof {
                    assert(hv.contains_key(a.key_hash));
                    assert(hv[a.key_hash] == entries_view(nh@[ix as int].1@));
                }
                if elen > 0 {
                    let last_ver = nh[ix].1[elen - 1].0;
                    proof {
                        assert(entries_view(nh@[ix as int].1@).last() == entry_view(
                            nh@[ix as int].1@.last(),
                        ));
                    }
                    if a.version <= last_ver {
                        proof {
                            assert(!append_ok(hist_apply(h0, av.subrange(0, i as int)), av[i as int]));
                            assert(!versions_ok(h0, av.subrange(0, i + 1)));
                            lemma_versions_ok_prefix(h0, av, i + 1);
                        }
                        return Err(DbError::VersionNotIncreasing);
                    }
                }
                let ghost before = nh@;
                let mut pair = nh.remove(ix);
                pair.1.push((a.version, clone_opt_bytes(&a.value)));
                nh.insert(ix, pair);
                proof {
                    assert(nh@ =~= before.update(ix as int, nh@[ix as int]));
                    assert(nh@[ix as int].0 == a.key_hash);
                    assert(entries_view(nh@[ix as int].1@) =~= entries_view(
                        before[ix as int].1@,
                    ).push((a.version, opt_bytes_view(a.value))));
                    lemma_hist_assoc_update(before, ix as int, nh@[ix as int].1);
                    assert(hist_assoc_view(nh@) =~= hist_apply(h0, av.subrange(0, i + 1)));
                    assert(entries_sorted(nh@[ix as int].1@));
                }
            },
            None => {
                proof {
                    assert(!hv.contains_key(a.key_hash));
                }
                let mut entries: Vec<(u64, Option<Vec<u8>>)> = Vec::new();
                entries.push((a.version, clone_opt_bytes(&a.value)));
                let ghost before = nh@;
                nh.push((a.key_hash, entries));
                proof {
                    assert(nh@.drop_last() =~= before);
                    assert(entries_view(nh@.last().1@) =~= Seq::<(u64, Option<Seq<u8>>)>::empty().push((a.version, opt_bytes_view(a.value))));
                    assert(hist_assoc_view(nh@) =~= hist_apply(h0, av.subrange(0, i + 1)));
                }
            },
        }
        i = i + 1;
    }
    proof {
        assert(av.subrange(0, n as int) =~= av);
    }
    Ok(nh)
}

/// Index of the entry for a key hash in a history association list.
fn find_hist_key(v: &Vec<(KeyHash, Vec<(u64, Option<Vec<u8>>)>)>, k: KeyHash) -> (r: Option<usize>)
    ensures
        match r {
            Some(i) => i < v@.len() && v@[i as int].0 == k,
            None => forall|i: int| 0 <= i < v@.len() ==> v@[i].0 != k,
        },
{
    let mut i: usize = 0;
    while i < v.len()
        invariant
            i <= v@.len(),
            forall|j: int| 0 <= j < i ==> v@[j].0 != k,
        decreases v@.len() - i,
    {
        if v[i].0 == k {
            return Some(i);
        }
        i = i + 1;
    }
    None
}

/// Index of the entry for a key hash in a preimage association list.
fn find_pre_key(v: &Vec<(KeyHash, Preimage)>, k: KeyHash) -> (r: Option<usize>)
    ensures
        match r {
            Some(i) => i < v@.len() && v@[i as int].0 == k,
            None => forall|i: int| 0 <= i < v@.len() ==> v@[i].0 != k,
        },
{
    let mut i: usize = 0;
    while i < v.len()
        invariant
            i <= v@.len(),
            forall|j: int| 0 <= j < i ==> v@[j].0 != k,
        decreases v@.len() - i,
    {
        if v[i].0 == k {
            return Some(i);
        }
        i = i + 1;
    }
    None
}

/// Reports whether a staleness marker is already in the index.
fn stale_contains(v: &Vec<StaleNodeIndex>, x: &StaleNodeIndex) -> (r: bool)
    ensures
        r <==> stale_view_set(v@).contains(x@),
{
    let mut i: usize = 0;
    while i < v.len()
        invariant
            i <= v@.len(),
            forall|j: int| 0 <= j < i ==> v@[j]@ != x@,
        decreases v@.len() - i,
    {
        if stale_eq(&v[i], x) {
            proof {
                assert(v@[i as int]@ == x@);
            }
            return true;
        }
        i = i + 1;
    }
    false
}

/// An exact copy of a stored history list.
fn clone_entries(v: &Vec<(u64, Option<Vec<u8>>)>) -> (r: Vec<(u64, Option<Vec<u8>>)>)
    ensures
        r@.len() == v@.len(),
        entries_view(r@) == entries_view(v@),
{
    let mut out: Vec<(u64, Option<Vec<u8>>)> = Vec::new();
    let mut i: usize = 0;
    while i < v.len()
        invariant
            i <= v@.len(),
            out@.len() == i,
            forall|j: int| 0 <= j < i ==> entry_view(out@[j]) == entry_view(v@[j]),
        decreases v@.len() - i,
    {
        let e = &v[i];
        out.push((e.0, clone_opt_bytes(&e.1)));
        i = i + 1;
    }
    proof {
        assert(entries_view(out@) =~= entries_view(v@));
    }
    out
}

/// An exact copy of the whole history association list.
fn clone_hist(v: &Vec<(KeyHash, Vec<(u64, Option<Vec<u8>>)>)>) -> (r: Vec<
    (KeyHash, Vec<(u64, Option<Vec<u8>>)>),
>)
    ensures
        r@.len() == v@.len(),
        forall|i: int| 0 <= i < v@.len() ==> (#[trigger] r@[i]).0 == v@[i].0,
        forall|i: int|
            0 <= i < v@.len() ==> entries_view((#[trigger] r@[i]).1@) == entries_view(v@[i].1@),
        hist_assoc_view(r@) == hist_assoc_view(v@),
        keys_distinct(v@) ==> keys_distinct(r@),
        (forall|i: int| 0 <= i < v@.len() ==> entries_sorted(#[trigger] v@[i].1@)) ==> (forall|
            i: int,
        |
            0 <= i < r@.len() ==> entries_sorted(#[trigger] r@[i].1@)),
{
    let mut out: Vec<(KeyHash, Vec<(u64, Option<Vec<u8>>)>)> = Vec::new();
    let mut i: usize = 0;
    while i < v.len()
        invariant
            i <= v@.len(),
            out@.len() == i,
            forall|j: int| 0 <= j < i ==> (#[trigger] out@[j]).0 == v@[j].0,
            forall|j: int|
                0 <= j < i ==> entries_view((#[trigger] out@[j]).1@) == entries_view(v@[j].1@),
        decreases v@.len() - i,
    {
        let p = &v[i];
        let copied = clone_entries(&p.1);
        out.push((p.0, copied));
        i = i + 1;
    }
    proof {
        lemma_hist_assoc_congruent(out@, v@);
        assert forall|i: int|
            0 <= i < out@.len() && (forall|t: int|
                0 <= t < v@.len() ==> entries_sorted(#[trigger] v@[t].1@)) implies entries_sorted(
            out@[i].1@,
        ) by {
            assert(entries_view(out@[i].1@) == entries_view(v@[i].1@));
            assert(entries_view(out@[i].1@).len() == entries_view(v@[i].1@).len());
            assert(out@[i].1@.len() == v@[i].1@.len());
            assert forall|a: int, b: int|
                0 <= a < b < out@[i].1@.len() implies out@[i].1@[a].0 < out@[i].1@[b].0 by {
                assert(entries_view(out@[i].1@)[a] == entry_view(out@[i].1@[a]));
                assert(entries_view(v@[i].1@)[a] == entry_view(v@[i].1@[a]));
                assert(entries_view(out@[i].1@)[b] == entry_view(out@[i].1@[b]));
                assert(entries_view(v@[i].1@)[b] == entry_view(v@[i].1@[b]));
                assert(v@[i].1@[a].0 < v@[i].1@[b].0);
            }
        }
    }
    out
}

/// Two lists agreeing pointwise on keys and history views denote the
/// same map.
pub proof fn lemma_hist_assoc_congruent(
    a: Seq<(KeyHash, Vec<(u64, Option<Vec<u8>>)>)>,
    b: Seq<(KeyHash, Vec<(u64, Option<Vec<u8>>)>)>,
)
    requires
        a.len() == b.len(),
        forall|i: int| 0 <= i < a.len() ==> (#[trigger] a[i]).0 == b[i].0,
        forall|i: int| 0 <= i < a.len() ==> entries_view((#[trigger] a[i]).1@) == entries_view(b[i].1@),
    ensures
        hist_assoc_view(a) == hist_assoc_view(b),
    decreases a.len(),
{
    if a.len() > 0 {
        assert forall|i: int| 0 <= i < a.drop_last().len() implies (#[trigger] a.drop_last()[i]).0
            == b.drop_last()[i].0 && entries_view(a.drop_last()[i].1@) == entries_view(
            b.drop_last()[i].1@,
        ) by {
            assert(a.drop_last()[i] == a[i]);
            assert(b.drop_last()[i] == b[i]);
        }
        lemma_hist_assoc_congruent(a.drop_last(), b.drop_last());
        assert(a.last() == a[a.len() - 1]);
        assert(b.last() == b[a.len() - 1]);
    }
}

/// Updating one entry of a unique-keyed history list updates exactly
/// that key's binding.
pub proof fn lemma_hist_assoc_update(
    s: Seq<(KeyHash, Vec<(u64, Option<Vec<u8>>)>)>,
    p: int,
    e: Vec<(u64, Option<Vec<u8>>)>,
)
    requires
        keys_distinct(s),
        0 <= p < s.len(),
    ensures
        hist_assoc_view(s.update(p, (s[p].0, e))) == hist_assoc_view(s).insert(
            s[p].0,
            entries_view(e@),
        ),
    decreases s.len(),
{
    let s2 = s.update(p, (s[p].0, e));
    let k = s[p].0;
    if p == s.len() - 1 {
        assert(s2.drop_last() =~= s.drop_last());
        assert(s2.last() == (k, e));
        assert(hist_assoc_view(s).insert(k, entries_view(e@)) =~= hist_assoc_view(
            s.drop_last(),
        ).insert(k, entries_view(e@)));
    } else {
        assert(keys_distinct(s.drop_last()));
        assert(s2.drop_last() =~= s.drop_last().update(p, (k, e)));
        lemma_hist_assoc_update(s.drop_last(), p, e);
        assert(s2.last() == s.last());
        assert(s.last().0 != k);
        assert(hist_assoc_view(s.drop_last()).insert(k, entries_view(e@)).insert(
            s.last().0,
            entries_view(s.last().1@),
        ) =~= hist_assoc_view(s.drop_last()).insert(s.last().0, entries_view(s.last().1@)).insert(
            k,
            entries_view(e@),
        ));
    }
}

/// With unique keys, the preimage list's map has exactly the listed
/// keys, each bound to its listed bytes.
pub proof fn lemma_pre_assoc_lookup(s: Seq<(KeyHash, Preimage)>, k: KeyHash)
    requires
        keys_distinct(s),
    ensures
        pre_assoc_view(s).contains_key(k) <==> exists|i: int| 0 <= i < s.len() && s[i].0 == k,
        forall|i: int|
            0 <= i < s.len() && s[i].0 == k ==> pre_assoc_view(s)[k] == (#[trigger] s[i].1)@,
    decreases s.len(),
{
    if s.len() > 0 {
        assert(keys_distinct(s.drop_last()));
        lemma_pre_assoc_lookup(s.drop_last(), k);
        if s.last().0 == k {
            assert(forall|i: int| 0 <= i < s.len() - 1 ==> s[i].0 != k);
        } else {
            assert(forall|i: int|
                0 <= i < s.len() - 1 && s[i].0 == k ==> s.drop_last()[i] == s[i]);
        }
    }
}

/// Updating one entry of a unique-keyed preimage list updates exactly
/// that key's binding.
pub proof fn lemma_pre_assoc_update(s: Seq<(KeyHash, Preimage)>, p: int, e: (KeyHash, Preimage))
    requires
        keys_distinct(s),
        0 <= p < s.len(),
        e.0 == s[p].0,
    ensures
        pre_assoc_view(s.update(p, e)) == pre_assoc_view(s).insert(e.0, e.1@),
    decreases s.len(),
{
    let s2 = s.update(p, e);
    let k = s[p].0;
    if p == s.len() - 1 {
        assert(s2.drop_last() =~= s.drop_last());
        assert(s2.last() == e);
        assert(pre_assoc_view(s).insert(k, e.1@) =~= pre_assoc_view(s.drop_last()).insert(
            k,
            e.1@,
        ));
    } else {
        assert(keys_distinct(s.drop_last()));
        assert(s2.drop_last() =~= s.drop_last().update(p, e));
        lemma_pre_assoc_update(s.drop_last(), p, e);
        assert(s2.last() == s.last());
        assert(s.last().0 != k);
        assert(pre_assoc_view(s.drop_last()).insert(k, e.1@).insert(
            s.last().0,
            s.last().1@,
        ) =~= pre_assoc_view(s.drop_last()).insert(s.last().0, s.last().1@).insert(k, e.1@));
    }
}

/// Admissibility of a whole append sequence carries to each prefix.
pub proof fn lemma_versions_ok_prefix(
    h: Map<KeyHash, Seq<(u64, Option<Seq<u8>>)>>,
    s: Seq<HistoryEntryV>,
    i: int,
)
    requires
        0 <= i <= s.len(),
        !versions_ok(h, s.subrange(0, i)),
    ensures
        !versions_ok(h, s),
    decreases s.len(),
{
    if i < s.len() {
        assert(s.subrange(0, i) =~= s.drop_last().subrange(0, i));
        lemma_versions_ok_prefix(h, s.drop_last(), i);
    } else {
        assert(s.subrange(0, i) =~= s);
    }
}

/// With unique keys, the association list's map has exactly the listed
/// keys, each bound to its listed history.
pub proof fn lemma_hist_assoc_lookup(s: Seq<(KeyHash, Vec<(u64, Option<Vec<u8>>)>)>, k: KeyHash)
    requires
        keys_distinct(s),
    ensures
        hist_assoc_view(s).contains_key(k) <==> exists|i: int| 0 <= i < s.len() && s[i].0 == k,
        forall|i: int|
            0 <= i < s.len() && s[i].0 == k ==> hist_assoc_view(s)[k] == entries_view(
                #[trigger] s[i].1@,
            ),
    decreases s.len(),
{
    if s.len() > 0 {
        assert(keys_distinct(s.drop_last()));
        lemma_hist_assoc_lookup(s.drop_last(), k);
        if s.last().0 == k {
            assert(forall|i: int| 0 <= i < s.len() - 1 ==> s[i].0 != k);
        } else {
            assert(forall|i: int|
                0 <= i < s.len() - 1 && s[i].0 == k ==> s.drop_last()[i] == s[i]);
        }
    }
}

} // verus!
