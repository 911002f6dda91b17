//! The adapter facade: the thread-safe handle a trie engine holds.
//!
//! All state sits behind one reader/writer lock whose invariant is the
//! aggregate's well-formedness.  Any number of readers may run at
//! once; a batch application holds the write lock for its whole
//! duration, so no reader ever observes a partially applied batch.
//! Because other handles to the same adapter may write between any two
//! calls, each read promises its result against some well-formed
//! aggregate — the one the lock held at that moment.

use vstd::prelude::*;
use vstd::rwlock::{RwLock, RwLockPredicate};

use std::sync::Arc;

use crate::backend::DiskIter;
use crate::state::{
    batch_malformed, entries_sorted, get_spec, hist_assoc_view, keys_distinct, nodes_result_ok,
    preimages_covered, versions_ok, DbInner,
};
use crate::types::{opt_bytes_view, DbError, KeyHash, Node, NodeKey, TreeUpdateBatch};

verus! {

/// The lock's invariant: whatever aggregate is stored is well-formed.
pub struct WfState {}

impl<D: DiskIter> RwLockPredicate<DbInner<D>> for WfState {
    open spec fn inv(self, v: DbInner<D>) -> bool {
        v.wf()
    }
}

/// A generic database adapter over any pluggable backend: versioned
/// point lookups, atomic batch application, and full node and history
/// enumeration, safe under concurrent use.
pub struct DbAdapter<D: DiskIter> {
    data: Arc<RwLock<DbInner<D>, WfState>>,
    column: String,
}

impl<D: DiskIter> DbAdapter<D> {
    /// A fresh adapter over a backend, with an empty aggregate; the
    /// backend may already hold raw records.  `column` names the slice
    /// of the physical store this adapter owns.
    pub fn new(db: D, column: String) -> (r: Self)
        ensures
            r.spec_column() == column@,
    {
        let inner = DbInner::new(db);
        DbAdapter { data: Arc::new(RwLock::new(inner, Ghost(WfState {}))), column }
    }

    /// The column name this adapter owns.
    pub closed spec fn spec_column(&self) -> Seq<char> {
        self.column@
    }

    /// The column name given at construction.
    pub fn column(&self) -> (r: &String)
        ensures
            r@ == self.spec_column(),
    {
        &self.column
    }

    /// Versioned point lookup under the read lock: for the aggregate
    /// the lock held, the value from the history entry for `key_hash`
    /// with the greatest version at most `max_version`, or absence if
    /// there is none or that entry is a deletion.  Absence is a valid
    /// outcome, never an error.
    pub fn get(&self, max_version: u64, key_hash: KeyHash) -> (r: Option<Vec<u8>>)
        ensures
            exists|s: DbInner<D>|
                s.wf() && opt_bytes_view(r) == get_spec(s.model(), max_version, key_hash),
    {
        let handle = self.data.acquire_read();
        let inner = handle.borrow();
        let r = inner.get(max_version, key_hash);
        proof {
            let s = *inner;
            assert(s.wf() && opt_bytes_view(r) == get_spec(s.model(), max_version, key_hash));
        }
        handle.release_read();
        r
    }

    /// Applies one batch under the write lock, all-or-nothing: against
    /// the aggregate the lock held, a batch that is malformed, appends
    /// history for a key hash with no preimage anywhere, or does not
    /// increase a history version, is rejected with the aggregate
    /// unchanged; otherwise every part of the batch takes effect as
    /// one transition before any reader can look again.
    pub fn update_batch(&self, batch: TreeUpdateBatch) -> (r: Result<(), DbError>)
        ensures
            r == Err::<(), DbError>(DbError::MalformedBatch) <==> batch_malformed(batch@),
            r == Err::<(), DbError>(DbError::MissingPreimage) ==> !batch_malformed(batch@)
                && exists|s: DbInner<D>|
                s.wf() && !preimages_covered(s.model().preimages, batch@),
            r matches Err(e) && e == DbError::VersionNotIncreasing ==> !batch_malformed(batch@)
                && exists|s: DbInner<D>|
                s.wf() && preimages_covered(s.model().preimages, batch@) && !versions_ok(
                    s.model().history,
                    batch@.history,
                ),
            r is Ok ==> !batch_malformed(batch@) && exists|s: DbInner<D>|
                s.wf() && preimages_covered(s.model().preimages, batch@) && versions_ok(
                    s.model().history,
                    batch@.history,
                ),
    {
        let (mut inner, handle) = self.data.acquire_write();
        let ghost pre = inner;
        let r = inner.update_batch(&batch);
        proof {
            assert(pre.wf());
            match r {
                Ok(()) => {
                    assert(preimages_covered(pre.model().preimages, batch@) && versions_ok(
                        pre.model().history,
                        batch@.history,
                    ));
                },
                Err(e) => {
                    if e == DbError::VersionNotIncreasing {
                        assert(preimages_covered(pre.model().preimages, batch@));
                    }
                },
            }
        }
        handle.release_write(inner);
        r
    }

    /// Enumerates the node records under the read lock: for the
    /// aggregate the lock held, every raw backend pair that decodes as
    /// a node identity and a node, each exactly once, everything else
    /// silently skipped.  A materialized snapshot, not a live view.
    pub fn nodes(&self) -> (r: Vec<(NodeKey, Node)>)
        ensures
            exists|s: DbInner<D>| s.wf() && nodes_result_ok(r@, s.model().db),
            forall|i: int, j: int| 0 <= i < j < r@.len() ==> r@[i].0@ != r@[j].0@,
    {
        let handle = self.data.acquire_read();
        let inner = handle.borrow();
        let r = inner.nodes();
        proof {
            let s = *inner;
            assert(s.wf() && nodes_result_ok(r@, s.model().db));
        }
        handle.release_read();
        r
    }

    /// A snapshot copy of the full value history under the read lock:
    /// the history map of the aggregate the lock held, one list per
    /// key hash, each strictly ascending by version.  A materialized
    /// snapshot, not a live view.
    pub fn value_history(&self) -> (r: Vec<(KeyHash, Vec<(u64, Option<Vec<u8>>)>)>)
        ensures
            exists|s: DbInner<D>| s.wf() && hist_assoc_view(r@) == s.model().history,
            keys_distinct(r@),
            forall|i: int| 0 <= i < r@.len() ==> entries_sorted(#[trigger] r@[i].1@),
    {
        let handle = self.data.acquire_read();
        let inner = handle.borrow();
        let r = inner.value_history();
        proof {
            let s = *inner;
            assert(s.wf() && hist_assoc_view(r@) == s.model().history);
        }
        handle.release_read();
        r
    }
}

impl<D: DiskIter> Default for DbAdapter<D> {
    /// A fresh adapter over a default backend, with an empty column
    /// name.
    fn default() -> Self {
        DbAdapter::new(D::default(), String::new())
    }
}

impl<D: DiskIter> Clone for DbAdapter<D> {
    /// Another handle to the same shared adapter: both see and change
    /// one aggregate.
    fn clone(&self) -> Self {
        DbAdapter { data: clone_arc(&self.data), column: self.column.clone() }
    }
}

/// Relies on Arc::clone: another reference to the same allocation.
#[verifier::external_body]
fn clone_arc<D: DiskIter>(a: &Arc<RwLock<DbInner<D>, WfState>>) -> (r: Arc<
    RwLock<DbInner<D>, WfState>,
>)
    ensures
        r == *a,
{
    Arc::clone(a)
}

} // verus!
